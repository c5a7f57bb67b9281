//! What running blocks of code does.

use crate::middle::lir::{BlockView, Immediate, InstructionView, Operand, RegisterId};
use vstd::prelude::*;

verus! {

/// What code works on: how instructions that go on with the next one change a
/// state, how a register is filled, and whether an operand is true.
#[verifier::reject_recursive_types(S)]
pub struct Machine<S> {
    pub act: spec_fn(S, InstructionView) -> S,
    pub fill: spec_fn(S, RegisterId, Operand) -> S,
    pub test: spec_fn(S, Operand) -> bool,
}

/// Whether booleans in the code are what they are, and a register that was filled
/// is true if what it was filled with was.
pub open spec fn is_faithful<S>(m: Machine<S>) -> bool {
    &&& forall|s: S, value: bool|
        #[trigger] (m.test)(s, Operand::Immediate(Immediate::Bool(value))) == value
    &&& forall|s: S, reg: RegisterId, value: Operand|
        #[trigger] (m.test)((m.fill)(s, reg, value), Operand::Register(reg)) == (m.test)(s, value)
}

/// A place in the code: before an instruction of a block, and the block that
/// control came from.
pub struct Point {
    pub block: u32,
    pub at: nat,
    pub from: u32,
}

/// Where running code has come to.
pub enum Running<S> {
    At(Point, S),
    Returned(S, Option<Operand>),
    Stuck,
}

/// Whether a block comes right behind another one.
pub open spec fn is_next(blocks: Map<u32, BlockView>, id: u32, next: u32) -> bool {
    &&& id < next
    &&& blocks.contains_key(next)
    &&& forall|k: u32| #[trigger] blocks.contains_key(k) && id < k ==> next <= k
}

/// The start of a block that is entered from another one.
pub open spec fn start_of(block: u32, from: u32) -> Point {
    Point { block, at: 0, from }
}

/// Runs one instruction. Control leaves a block at its end for the block right
/// behind it.
pub open spec fn run_step<S>(
    m: Machine<S>,
    blocks: Map<u32, BlockView>,
    p: Point,
    s: S,
) -> Running<S> {
    if !blocks.contains_key(p.block) {
        Running::Stuck
    } else if p.at >= blocks[p.block].instructions.len() {
        if exists|next: u32| is_next(blocks, p.block, next) {
            Running::At(
                start_of(choose|next: u32| is_next(blocks, p.block, next), p.block),
                s,
            )
        } else {
            Running::Stuck
        }
    } else {
        match blocks[p.block].instructions[p.at as int] {
            InstructionView::Jump { destination } => Running::At(
                start_of(destination.0, p.block),
                s,
            ),
            InstructionView::Branch { condition, positive, negative } => Running::At(
                start_of(
                    if (m.test)(s, condition) {
                        positive.0
                    } else {
                        negative.0
                    },
                    p.block,
                ),
                s,
            ),
            InstructionView::Return { value } => Running::Returned(s, value),
            InstructionView::Phi { destination, sources } => if sources.contains_key(p.from) {
                Running::At(
                    Point { at: p.at + 1, ..p },
                    (m.fill)(s, destination, sources[p.from]),
                )
            } else {
                Running::Stuck
            },
            instruction => Running::At(Point { at: p.at + 1, ..p }, (m.act)(s, instruction)),
        }
    }
}

/// Runs code for so many steps, or until it returns.
pub open spec fn run<S>(
    m: Machine<S>,
    blocks: Map<u32, BlockView>,
    p: Point,
    s: S,
    n: nat,
) -> Running<S>
    decreases n,
{
    if n == 0 {
        Running::At(p, s)
    } else {
        match run_step(m, blocks, p, s) {
            Running::At(q, t) => run(m, blocks, q, t, (n - 1) as nat),
            end => end,
        }
    }
}

/// Whether running code comes to a place with a state.
pub open spec fn comes_to<S>(
    m: Machine<S>,
    blocks: Map<u32, BlockView>,
    p: Point,
    s: S,
    q: Point,
    t: S,
) -> bool {
    exists|n: nat| #[trigger] run(m, blocks, p, s, n) == Running::At(q, t)
}

/// Whether running code returns a value with a state.
pub open spec fn gives_back<S>(
    m: Machine<S>,
    blocks: Map<u32, BlockView>,
    p: Point,
    s: S,
    t: S,
    value: Option<Operand>,
) -> bool {
    exists|n: nat| #[trigger] run(m, blocks, p, s, n) == Running::Returned(t, value)
}

pub proof fn lemma_run_once<S>(m: Machine<S>, blocks: Map<u32, BlockView>, p: Point, s: S)
    ensures
        run(m, blocks, p, s, 1) == run_step(m, blocks, p, s),
{
    match run_step(m, blocks, p, s) {
        Running::At(q, t) => {
            assert(run(m, blocks, q, t, 0) == Running::At(q, t));
        },
        _ => {},
    }
    assert(run(m, blocks, p, s, 1) == match run_step(m, blocks, p, s) {
        Running::At(q, t) => run(m, blocks, q, t, 0),
        end => end,
    });
}

pub proof fn lemma_run_on<S>(
    m: Machine<S>,
    blocks: Map<u32, BlockView>,
    p: Point,
    s: S,
    n: nat,
    q: Point,
    t: S,
    k: nat,
)
    requires
        run(m, blocks, p, s, n) == Running::At(q, t),
    ensures
        run(m, blocks, p, s, n + k) == run(m, blocks, q, t, k),
    decreases n,
{
    if n > 0 {
        match run_step(m, blocks, p, s) {
            Running::At(p1, s1) => lemma_run_on(m, blocks, p1, s1, (n - 1) as nat, q, t, k),
            _ => {},
        }
    }
}

/// Running on from where code has come to.
pub proof fn lemma_comes_on<S>(
    m: Machine<S>,
    blocks: Map<u32, BlockView>,
    p: Point,
    s: S,
    q: Point,
    t: S,
    r: Point,
    u: S,
)
    requires
        comes_to(m, blocks, p, s, q, t),
        comes_to(m, blocks, q, t, r, u),
    ensures
        comes_to(m, blocks, p, s, r, u),
{
    let n = choose|n: nat| #[trigger] run(m, blocks, p, s, n) == Running::At(q, t);
    let k = choose|k: nat| #[trigger] run(m, blocks, q, t, k) == Running::At(r, u);
    lemma_run_on(m, blocks, p, s, n, q, t, k);
    assert(run(m, blocks, p, s, n + k) == Running::At(r, u));
}

/// One step.
pub proof fn lemma_comes_step<S>(
    m: Machine<S>,
    blocks: Map<u32, BlockView>,
    p: Point,
    s: S,
    q: Point,
    t: S,
)
    requires
        run_step(m, blocks, p, s) == Running::At(q, t),
    ensures
        comes_to(m, blocks, p, s, q, t),
{
    lemma_run_once(m, blocks, p, s);
    assert(run(m, blocks, p, s, 1) == Running::At(q, t));
}

/// How control leaves a block of code that has no phis.
pub enum Exit {
    To(u32),
    Back(Option<Operand>),
    /// At the end, for the block right behind.
    Past,
    Stuck,
}

/// Runs a block from an instruction on, up to where control leaves it.
pub open spec fn leave<S>(
    m: Machine<S>,
    code: Seq<InstructionView>,
    at: nat,
    s: S,
) -> (S, Exit)
    decreases code.len() - at,
{
    if at >= code.len() {
        (s, Exit::Past)
    } else {
        match code[at as int] {
            InstructionView::Jump { destination } => (s, Exit::To(destination.0)),
            InstructionView::Branch { condition, positive, negative } => (
                s,
                Exit::To(
                    if (m.test)(s, condition) {
                        positive.0
                    } else {
                        negative.0
                    },
                ),
            ),
            InstructionView::Return { value } => (s, Exit::Back(value)),
            InstructionView::Phi { .. } => (s, Exit::Stuck),
            instruction => leave(m, code, at + 1, (m.act)(s, instruction)),
        }
    }
}

/// The block right behind another one.
pub open spec fn next_of(blocks: Map<u32, BlockView>, id: u32) -> Option<u32> {
    if exists|next: u32| is_next(blocks, id, next) {
        Some(choose|next: u32| is_next(blocks, id, next))
    } else {
        None
    }
}

/// Runs code without phis from the start of a block through at most `n` blocks,
/// up to where it returns.
pub open spec fn travel<S>(
    m: Machine<S>,
    blocks: Map<u32, BlockView>,
    id: u32,
    s: S,
    n: nat,
) -> Option<(S, Option<Operand>)>
    decreases n,
{
    if n == 0 || !blocks.contains_key(id) {
        None
    } else {
        match leave(m, blocks[id].instructions, 0, s) {
            (t, Exit::To(next)) => travel(m, blocks, next, t, (n - 1) as nat),
            (t, Exit::Back(value)) => Some((t, value)),
            (t, Exit::Past) => match next_of(blocks, id) {
                Some(next) => travel(m, blocks, next, t, (n - 1) as nat),
                None => None,
            },
            (t, Exit::Stuck) => None,
        }
    }
}

/// Whether running code without phis from the start of a block returns a value,
/// with a state.
pub open spec fn yields<S>(
    m: Machine<S>,
    blocks: Map<u32, BlockView>,
    id: u32,
    s: S,
    t: S,
    value: Option<Operand>,
) -> bool {
    exists|n: nat| #[trigger] travel(m, blocks, id, s, n) == Some((t, value))
}

pub proof fn lemma_next_unique(blocks: Map<u32, BlockView>, id: u32, next: u32)
    requires
        is_next(blocks, id, next),
    ensures
        next_of(blocks, id) == Some(next),
{
    let other = choose|other: u32| is_next(blocks, id, other);
    assert(blocks.contains_key(other) && blocks.contains_key(next));
}

pub proof fn lemma_next_exists(blocks: Map<u32, BlockView>, id: u32, k: u32)
    requires
        blocks.contains_key(k),
        id < k,
    ensures
        next_of(blocks, id) matches Some(next) && is_next(blocks, id, next),
    decreases k,
{
    if !is_next(blocks, id, k) {
        let smaller = choose|j: u32| #[trigger] blocks.contains_key(j) && id < j && j < k;
        lemma_next_exists(blocks, id, smaller);
    }
}

/// Running on from where control leaves a block.
pub proof fn lemma_yields_step<S>(
    m: Machine<S>,
    blocks: Map<u32, BlockView>,
    id: u32,
    s: S,
    t: S,
    value: Option<Operand>,
)
    requires
        blocks.contains_key(id),
    ensures
        yields(m, blocks, id, s, t, value) <==> match leave(m, blocks[id].instructions, 0, s) {
            (u, Exit::To(next)) => yields(m, blocks, next, u, t, value),
            (u, Exit::Back(v)) => u == t && v == value,
            (u, Exit::Past) => next_of(blocks, id) matches Some(next) && yields(
                m,
                blocks,
                next,
                u,
                t,
                value,
            ),
            (u, Exit::Stuck) => false,
        },
{
    let goal = Some((t, value));
    let (u, exit) = leave(m, blocks[id].instructions, 0, s);
    if yields(m, blocks, id, s, t, value) {
        let n = choose|n: nat| #[trigger] travel(m, blocks, id, s, n) == goal;
        match exit {
            Exit::To(next) => {
                assert(travel(m, blocks, next, u, (n - 1) as nat) == goal);
            },
            Exit::Past => {
                assert(travel(m, blocks, next_of(blocks, id)->0, u, (n - 1) as nat) == goal);
            },
            _ => {},
        }
    }
    match exit {
        Exit::To(next) => {
            if yields(m, blocks, next, u, t, value) {
                let n = choose|n: nat| #[trigger] travel(m, blocks, next, u, n) == goal;
                assert(travel(m, blocks, id, s, n + 1) == goal);
            }
        },
        Exit::Past => {
            if next_of(blocks, id) matches Some(next) && yields(m, blocks, next, u, t, value) {
                let next = next_of(blocks, id)->0;
                let n = choose|n: nat| #[trigger] travel(m, blocks, next, u, n) == goal;
                assert(travel(m, blocks, id, s, n + 1) == goal);
            }
        },
        Exit::Back(v) => {
            if u == t && v == value {
                assert(travel(m, blocks, id, s, 1) == goal);
            }
        },
        Exit::Stuck => {},
    }
}

} // verus!
