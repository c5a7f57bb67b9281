//! Simplifying code does not change what it does.

use crate::collections::{ascending, lemma_ascending, lists};
use crate::middle::lir::running::{
    is_next, leave, lemma_next_exists, lemma_next_unique, lemma_yields_step, next_of, travel,
    yields, Exit, Machine,
};
use crate::middle::lir::{BlockId, BlockView, Immediate, InstructionView, Operand};
use crate::middle::optimization::pre_ssa::{
    abandoned, all_on_bools, branches_on_bool, cut_at_return, dead_step, dead_upto, dropped_upto,
    final_jump, goes_to, is_dead, is_first_dead, is_linked, leads_to, leaves_for_good,
    lemma_dead_keeps, lemma_dead_settles, lemma_dead_step_links, lemma_dropped_keeps,
    lemma_merge_keeps, lemma_abandoned, lemma_nothing_abandoned, lemma_return_from_first,
    lemma_thread_keeps, lemma_thread_step_links, law_dropping_keeps_links, merge_upto, merged,
    only_jump, redirected, redirected_code, return_from, settled, settled_code, simplified,
    thread_step, thread_upto, threaded, truncated, unlinked, without_dead, Merging,
};
use vstd::prelude::*;

verus! {

/// Whether booleans in the code are what they are.
pub open spec fn knows_booleans<S>(m: Machine<S>) -> bool {
    forall|s: S, value: bool|
        #[trigger] (m.test)(s, Operand::Immediate(Immediate::Bool(value))) == value
}

/// Whether an instruction does not go on with the next one, or depends on where
/// control came from.
pub open spec fn is_control(instruction: InstructionView) -> bool {
    instruction is Jump || instruction is Branch || instruction is Return || instruction is Phi
}

/// Whether control gets past the end of some code.
pub open spec fn falls(code: Seq<InstructionView>) -> bool {
    forall|i: int| 0 <= i < code.len() ==> !is_control(#[trigger] code[i])
}

/// Whether a block can go on in another one: it jumps there, or control gets past
/// its end and the other one comes right behind.
pub open spec fn enters(blocks: Map<u32, BlockView>, k: u32, t: u32) -> bool {
    &&& blocks.contains_key(k)
    &&& (exists|i: int|
        0 <= i < blocks[k].instructions.len() && goes_to(#[trigger] blocks[k].instructions[i], t))
        || (falls(blocks[k].instructions) && is_next(blocks, k, t))
}

/// Whether the block behind one whose end control gets past knows that it is
/// entered from there.
pub open spec fn knows_falls(blocks: Map<u32, BlockView>) -> bool {
    forall|k: u32, t: u32|
        #[trigger] blocks.contains_key(k) && falls(blocks[k].instructions) && #[trigger] is_next(
            blocks,
            k,
            t,
        ) ==> blocks[t].predecessors.contains(k)
}

proof fn lemma_leave_past<S>(m: Machine<S>, code: Seq<InstructionView>, at: nat, s: S)
    requires
        at <= code.len(),
    ensures
        match leave(m, code, at, s).1 {
            Exit::Past => forall|i: int| at <= i < code.len() ==> !is_control(#[trigger] code[i]),
            Exit::To(t) => exists|i: int| at <= i < code.len() && goes_to(#[trigger] code[i], t),
            _ => true,
        },
    decreases code.len() - at,
{
    if at < code.len() && !is_control(code[at as int]) {
        lemma_leave_past(m, code, at + 1, (m.act)(s, code[at as int]));
    } else if at < code.len() {
        match leave(m, code, at, s).1 {
            Exit::To(t) => {
                assert(goes_to(code[at as int], t));
            },
            _ => {},
        }
    }
}

/// What leaving a block leads to is entered from it.
proof fn lemma_leave_enters<S>(m: Machine<S>, blocks: Map<u32, BlockView>, k: u32, s: S)
    requires
        blocks.contains_key(k),
    ensures
        match leave(m, blocks[k].instructions, 0, s).1 {
            Exit::To(t) => enters(blocks, k, t),
            Exit::Past => falls(blocks[k].instructions) && (next_of(blocks, k) matches Some(t)
                ==> is_next(blocks, k, t) && enters(blocks, k, t)),
            _ => true,
        },
{
    lemma_leave_past(m, blocks[k].instructions, 0, s);
}

proof fn lemma_leave_cut<S>(m: Machine<S>, code: Seq<InstructionView>, at: nat, s: S)
    requires
        at <= return_from(code, 0),
    ensures
        leave(m, cut_at_return(code), at, s) == leave(m, code, at, s),
    decreases code.len() - at,
{
    lemma_return_from_first(code, 0);
    let n = return_from(code, 0);
    let cut = cut_at_return(code);
    if at < n && at < code.len() && !is_control(code[at as int]) {
        assert(cut[at as int] == code[at as int]);
        lemma_leave_cut(m, code, at + 1, (m.act)(s, code[at as int]));
    } else if at < code.len() {
        assert(cut[at as int] == code[at as int]);
    }
}

proof fn lemma_leave_settled<S>(m: Machine<S>, code: Seq<InstructionView>, at: nat, s: S)
    requires
        knows_booleans(m),
        all_on_bools(code),
        at <= code.len(),
    ensures
        leave(m, settled_code(code), at, s) == leave(m, code, at, s),
    decreases code.len() - at,
{
    if at < code.len() {
        assert(settled_code(code)[at as int] == settled(code[at as int]));
        assert(branches_on_bool(code[at as int]));
        if let InstructionView::Branch { condition: Operand::Immediate(i), .. } = code[at as int] {
            if let Immediate::Bool(value) = i {
                assert((m.test)(s, Operand::Immediate(Immediate::Bool(value))) == value);
            }
        }
        if !is_control(code[at as int]) {
            lemma_leave_settled(m, code, at + 1, (m.act)(s, code[at as int]));
        }
    }
}

proof fn lemma_settled_falls(code: Seq<InstructionView>)
    ensures
        falls(settled_code(code)) == falls(code),
{
    let after = settled_code(code);
    if falls(code) {
        assert forall|i: int| 0 <= i < after.len() implies !is_control(#[trigger] after[i]) by {
            assert(!is_control(code[i]));
        }
    }
    if falls(after) {
        assert forall|i: int| 0 <= i < code.len() implies !is_control(#[trigger] code[i]) by {
            assert(!is_control(after[i]));
        }
    }
}

/// Two sets of blocks that do the same from the same places, block by block.
proof fn lemma_travel_alike<S>(
    m: Machine<S>,
    a: Map<u32, BlockView>,
    b: Map<u32, BlockView>,
    id: u32,
    s: S,
    n: nat,
)
    requires
        a.dom() == b.dom(),
        forall|k: u32, u: S| #[trigger]
            a.contains_key(k) ==> #[trigger] leave(m, a[k].instructions, 0, u) == leave(
                m,
                b[k].instructions,
                0,
                u,
            ),
    ensures
        travel(m, a, id, s, n) == travel(m, b, id, s, n),
    decreases n,
{
    if n > 0 && a.contains_key(id) {
        assert(leave(m, a[id].instructions, 0, s) == leave(m, b[id].instructions, 0, s));
        lemma_next_alike(a, b, id);
        match leave(m, a[id].instructions, 0, s) {
            (t, Exit::To(next)) => lemma_travel_alike(m, a, b, next, t, (n - 1) as nat),
            (t, Exit::Past) => match next_of(a, id) {
                Some(next) => lemma_travel_alike(m, a, b, next, t, (n - 1) as nat),
                None => {},
            },
            _ => {},
        }
    }
}

proof fn lemma_next_alike(a: Map<u32, BlockView>, b: Map<u32, BlockView>, id: u32)
    requires
        a.dom() == b.dom(),
    ensures
        next_of(a, id) == next_of(b, id),
{
    assert forall|k: u32| a.contains_key(k) == b.contains_key(k) by {
        assert(a.dom().contains(k) == b.dom().contains(k));
    }
    if next_of(a, id) is Some {
        let k = next_of(a, id)->0;
        assert(is_next(a, id, k));
        assert(is_next(b, id, k));
        lemma_next_unique(b, id, k);
    }
    if next_of(b, id) is Some {
        let k = next_of(b, id)->0;
        assert(is_next(b, id, k));
        assert(is_next(a, id, k));
        lemma_next_unique(a, id, k);
    }
}

/// The block behind another one is the same once a block that is not it is gone.
proof fn lemma_next_kept(
    a: Map<u32, BlockView>,
    b: Map<u32, BlockView>,
    gone: u32,
    id: u32,
)
    requires
        b.dom() == a.dom().remove(gone),
        !is_next(a, id, gone),
    ensures
        next_of(a, id) == next_of(b, id),
        forall|t: u32| is_next(a, id, t) == is_next(b, id, t),
{
    assert forall|k: u32| b.contains_key(k) == (a.contains_key(k) && k != gone) by {
        assert(b.dom().contains(k) == a.dom().remove(gone).contains(k));
    }
    assert forall|t: u32| is_next(a, id, t) == is_next(b, id, t) by {
        if is_next(b, id, t) {
            lemma_next_exists(a, id, t);
            let first = next_of(a, id)->0;
            assert(b.contains_key(first));
        }
    }
    if next_of(a, id) is Some {
        lemma_next_unique(b, id, next_of(a, id)->0);
    }
    if next_of(b, id) is Some {
        lemma_next_unique(a, id, next_of(b, id)->0);
    }
}

/// Whether blocks know where they are entered from: all that is jumped to exists
/// and knows it, and so does what control gets into past the end of a block.
pub open spec fn knows_entries(blocks: Map<u32, BlockView>) -> bool {
    is_linked(blocks) && knows_falls(blocks)
}

proof fn lemma_enters_known(blocks: Map<u32, BlockView>, k: u32, t: u32)
    requires
        knows_entries(blocks),
        enters(blocks, k, t),
    ensures
        blocks.contains_key(t),
        blocks[t].predecessors.contains(k),
{
    if exists|i: int|
        0 <= i < blocks[k].instructions.len() && goes_to(#[trigger] blocks[k].instructions[i], t) {
        let i = choose|i: int|
            0 <= i < blocks[k].instructions.len() && goes_to(
                #[trigger] blocks[k].instructions[i],
                t,
            );
        assert(goes_to(blocks[k].instructions[i], t));
        assert(blocks.contains_key(t));
    }
}

/// Cutting blocks off behind returns changes nothing.
proof fn lemma_truncated_runs<S>(m: Machine<S>, blocks: Map<u32, BlockView>, id: u32, s: S, n: nat)
    ensures
        travel(m, truncated(blocks), id, s, n) == travel(m, blocks, id, s, n),
        knows_entries(blocks) ==> knows_entries(truncated(blocks)),
{
    let after = truncated(blocks);
    assert(after.dom() =~= blocks.dom());
    assert forall|k: u32, u: S| #[trigger] after.contains_key(k) implies #[trigger] leave(
        m,
        after[k].instructions,
        0,
        u,
    ) == leave(m, blocks[k].instructions, 0, u) by {
        lemma_leave_cut(m, blocks[k].instructions, 0, u);
    }
    lemma_travel_alike(m, after, blocks, id, s, n);
    if knows_entries(blocks) {
        assert forall|k: u32, i: int, t: u32|
            after.contains_key(k) && 0 <= i < after[k].instructions.len() && goes_to(
                #[trigger] after[k].instructions[i],
                t,
            ) implies #[trigger] after.contains_key(t) && after[t].predecessors.contains(k) by {
            lemma_return_from_first(blocks[k].instructions, 0);
            assert(after[k].instructions[i] == blocks[k].instructions[i]);
            assert(blocks.contains_key(t));
        }
        assert forall|k: u32, t: u32|
            #[trigger] after.contains_key(k) && falls(after[k].instructions) && #[trigger] is_next(
                after,
                k,
                t,
            ) implies after[t].predecessors.contains(k) by {
            let code = blocks[k].instructions;
            lemma_return_from_first(code, 0);
            let n = return_from(code, 0);
            if n < code.len() {
                assert(is_control(after[k].instructions[n as int]));
            }
            assert(falls(code));
            lemma_next_alike(after, blocks, k);
            lemma_next_unique(after, k, t);
            assert(is_next(blocks, k, t));
        }
    }
}

/// Dropping a block that is entered from nowhere changes nothing elsewhere.
proof fn lemma_drop_runs<S>(
    m: Machine<S>,
    blocks: Map<u32, BlockView>,
    gone: u32,
    id: u32,
    s: S,
    n: nat,
)
    requires
        knows_entries(blocks),
        is_dead(blocks, gone),
        blocks.contains_key(gone),
        id != gone,
    ensures
        travel(m, unlinked(blocks.remove(gone), gone), id, s, n) == travel(m, blocks, id, s, n),
    decreases n,
{
    let after = unlinked(blocks.remove(gone), gone);
    assert(after.dom() =~= blocks.dom().remove(gone));
    if n > 0 && blocks.contains_key(id) {
        lemma_leave_enters(m, blocks, id, s);
        assert(!enters(blocks, id, gone)) by {
            if enters(blocks, id, gone) {
                lemma_enters_known(blocks, id, gone);
            }
        }
        match leave(m, blocks[id].instructions, 0, s) {
            (t, Exit::To(next)) => lemma_drop_runs(m, blocks, gone, next, t, (n - 1) as nat),
            (t, Exit::Past) => {
                lemma_next_kept(blocks, after, gone, id);
                match next_of(blocks, id) {
                    Some(next) => lemma_drop_runs(m, blocks, gone, next, t, (n - 1) as nat),
                    None => {},
                }
            },
            _ => {},
        }
    }
}

proof fn lemma_drop_knows(blocks: Map<u32, BlockView>, gone: u32)
    requires
        knows_entries(blocks),
        is_dead(blocks, gone),
        blocks.contains_key(gone),
    ensures
        knows_entries(unlinked(blocks.remove(gone), gone)),
{
    let after = unlinked(blocks.remove(gone), gone);
    assert(after.dom() =~= blocks.dom().remove(gone));
    law_dropping_keeps_links(blocks, gone);
    assert forall|k: u32, t: u32|
        #[trigger] after.contains_key(k) && falls(after[k].instructions) && #[trigger] is_next(
            after,
            k,
            t,
        ) implies after[t].predecessors.contains(k) by {
        assert(!is_next(blocks, k, gone)) by {
            if is_next(blocks, k, gone) {
                assert(blocks.contains_key(k));
                assert(blocks[gone].predecessors.contains(k));
            }
        }
        lemma_next_kept(blocks, after, gone, k);
        assert(blocks.contains_key(k));
        assert(is_next(blocks, k, t));
    }
}

/// Turning branches on known values into jumps, or dropping a block that is
/// entered from nowhere, changes nothing.
proof fn lemma_dead_step_runs<S>(
    m: Machine<S>,
    blocks: Map<u32, BlockView>,
    at: u32,
    id: u32,
    s: S,
    n: nat,
)
    requires
        knows_booleans(m),
        knows_entries(blocks),
        blocks.contains_key(at),
        dead_step(blocks, at) is Some,
        leaves_for_good(blocks[at].instructions),
        id == at ==> !is_dead(blocks, at),
    ensures
        travel(m, dead_step(blocks, at)->0, id, s, n) == travel(m, blocks, id, s, n),
        knows_entries(dead_step(blocks, at)->0),
{
    let after = dead_step(blocks, at)->0;
    if is_dead(blocks, at) {
        lemma_drop_runs(m, blocks, at, id, s, n);
        lemma_drop_knows(blocks, at);
    } else {
        let code = blocks[at].instructions;
        assert(all_on_bools(code));
        assert(after.dom() =~= blocks.dom());
        assert(after[at].instructions == settled_code(code)) by {
            if abandoned(code, code.len()) is None {
                lemma_nothing_abandoned(code, code.len());
                assert(settled_code(code) =~= code);
            }
        }
        assert forall|k: u32, u: S| #[trigger] after.contains_key(k) implies #[trigger] leave(
            m,
            after[k].instructions,
            0,
            u,
        ) == leave(m, blocks[k].instructions, 0, u) by {
            if k == at {
                lemma_leave_settled(m, code, 0, u);
            }
        }
        lemma_travel_alike(m, after, blocks, id, s, n);
        lemma_dead_step_links(blocks, at);
        lemma_settled_falls(code);
        assert forall|k: u32, t: u32|
            #[trigger] after.contains_key(k) && falls(after[k].instructions) && #[trigger] is_next(
                after,
                k,
                t,
            ) implies after[t].predecessors.contains(k) by {
            assert(blocks.contains_key(k) && falls(blocks[k].instructions));
            lemma_next_alike(after, blocks, k);
            assert(is_next(blocks, k, t));
            if k == at && abandoned(code, code.len()) is Some {
                lemma_abandoned(code, code.len());
                let i = choose|i: int|
                    0 <= i < code.len() && goes_to(
                        #[trigger] code[i],
                        (abandoned(code, code.len())->0).0,
                    );
                assert(is_control(code[i]));
            }
        }
    }
}

proof fn lemma_dead_upto_runs<S>(
    m: Machine<S>,
    blocks: Map<u32, BlockView>,
    ids: Seq<u32>,
    n: nat,
    s: S,
    fuel: nat,
)
    requires
        knows_booleans(m),
        knows_entries(blocks),
        lists(ids, blocks.dom()),
        n <= ids.len(),
        dead_upto(blocks, ids, n) is Some,
        forall|id: u32| #[trigger]
            blocks.contains_key(id) ==> leaves_for_good(blocks[id].instructions),
    ensures
        travel(m, dead_upto(blocks, ids, n)->0, 0, s, fuel) == travel(m, blocks, 0, s, fuel),
        knows_entries(dead_upto(blocks, ids, n)->0),
    decreases n,
{
    if n > 0 {
        lemma_dead_upto_runs(m, blocks, ids, (n - 1) as nat, s, fuel);
        let before = dead_upto(blocks, ids, (n - 1) as nat)->0;
        lemma_dead_settles(blocks, ids, (n - 1) as nat);
        lemma_dead_keeps(blocks, ids, (n - 1) as nat);
        assert(ids.to_set().contains(ids[n - 1]));
        assert(blocks.contains_key(ids[n - 1]));
        assert(before.contains_key(ids[n - 1]));
        lemma_dead_step_runs(m, before, ids[n - 1], 0, s, fuel);
    }
}

proof fn lemma_dropped_runs<S>(
    m: Machine<S>,
    blocks: Map<u32, BlockView>,
    n: nat,
    s: S,
    fuel: nat,
)
    requires
        knows_entries(blocks),
    ensures
        travel(m, dropped_upto(blocks, n), 0, s, fuel) == travel(m, blocks, 0, s, fuel),
        knows_entries(dropped_upto(blocks, n)),
    decreases n,
{
    if n > 0 && exists|id: u32| is_first_dead(blocks, id) {
        let id = choose|id: u32| is_first_dead(blocks, id);
        lemma_drop_runs(m, blocks, id, 0, s, fuel);
        lemma_drop_knows(blocks, id);
        lemma_dropped_runs(m, unlinked(blocks.remove(id), id), (n - 1) as nat, s, fuel);
    }
}

/// Turning branches on known values into jumps and dropping dead blocks does not
/// change what a function does.
proof fn lemma_alive_runs<S>(m: Machine<S>, blocks: Map<u32, BlockView>, s: S, fuel: nat)
    requires
        knows_booleans(m),
        knows_entries(blocks),
        blocks.dom().finite(),
        without_dead(blocks) is Some,
        forall|id: u32| #[trigger]
            blocks.contains_key(id) ==> leaves_for_good(blocks[id].instructions),
    ensures
        travel(m, without_dead(blocks)->0, 0, s, fuel) == travel(m, blocks, 0, s, fuel),
        knows_entries(without_dead(blocks)->0),
{
    let ids = ascending(blocks.dom());
    lemma_ascending(blocks.dom());
    lemma_dead_upto_runs(m, blocks, ids, ids.len(), s, fuel);
    let swept = dead_upto(blocks, ids, ids.len())->0;
    lemma_dropped_runs(m, swept, swept.dom().len(), s, fuel);
}

/// Where code goes that is led from one block to another.
spec fn led(exit: Exit, id: u32, target: u32) -> Exit {
    match exit {
        Exit::To(t) => if t == id {
            Exit::To(target)
        } else {
            exit
        },
        _ => exit,
    }
}

proof fn lemma_leave_redirected<S>(
    m: Machine<S>,
    code: Seq<InstructionView>,
    id: u32,
    target: BlockId,
    at: nat,
    s: S,
)
    requires
        at <= code.len(),
        forall|i: int| 0 <= i < code.len() ==> leads_to(#[trigger] code[i], id),
    ensures
        leave(m, redirected_code(code, id, target), at, s) == (
            leave(m, code, at, s).0,
            led(leave(m, code, at, s).1, id, target.0),
        ),
    decreases code.len() - at,
{
    if at < code.len() {
        assert(redirected_code(code, id, target)[at as int] == redirected(
            code[at as int],
            id,
            target,
        ));
        assert(leads_to(code[at as int], id));
        if !is_control(code[at as int]) {
            lemma_leave_redirected(m, code, id, target, at + 1, (m.act)(s, code[at as int]));
        }
    }
}

/// Whether a block that is nothing but a jump can be dropped: it does not jump to
/// itself, is not the entry, and control does not get into it past the end of
/// another one.
pub open spec fn can_thread(blocks: Map<u32, BlockView>, id: u32) -> bool {
    only_jump(blocks[id].instructions) matches Some(target) ==> {
        &&& target.0 != id
        &&& id != 0
        &&& forall|k: u32| #[trigger]
            blocks.contains_key(k) && falls(blocks[k].instructions) ==> !is_next(blocks, k, id)
    }
}

/// How leaving a block changes when a block that only jumps is gone.
proof fn lemma_thread_leave<S>(m: Machine<S>, blocks: Map<u32, BlockView>, id: u32, k: u32, s: S)
    requires
        knows_entries(blocks),
        blocks.contains_key(id),
        blocks.contains_key(k),
        k != id,
        thread_step(blocks, id) is Some,
        only_jump(blocks[id].instructions) is Some,
        can_thread(blocks, id),
    ensures
        ({
            let after = thread_step(blocks, id)->0;
            let target = only_jump(blocks[id].instructions)->0;
            &&& leave(m, after[k].instructions, 0, s) == (
                leave(m, blocks[k].instructions, 0, s).0,
                led(leave(m, blocks[k].instructions, 0, s).1, id, target.0),
            )
            &&& leave(m, blocks[k].instructions, 0, s).1 is Past ==> next_of(after, k) == next_of(
                blocks,
                k,
            ) && next_of(blocks, k) != Some(id)
        }),
{
    let after = thread_step(blocks, id)->0;
    let target = only_jump(blocks[id].instructions)->0;
    let code = blocks[k].instructions;
    assert(after.dom() =~= blocks.dom().remove(id));
    lemma_leave_enters(m, blocks, k, s);
    if blocks[id].predecessors.contains(k) {
        assert forall|i: int| 0 <= i < code.len() implies leads_to(#[trigger] code[i], id) by {
            assert(leads_to(blocks[k].instructions[i], id));
        }
        lemma_leave_redirected(m, code, id, target, 0, s);
    } else {
        if enters(blocks, k, id) {
            lemma_enters_known(blocks, k, id);
        }
    }
    if leave(m, code, 0, s).1 is Past {
        lemma_next_kept(blocks, after, id, k);
        if next_of(blocks, k) == Some(id) {
            assert(is_next(blocks, k, id));
        }
    }
}

proof fn lemma_thread_forward<S>(
    m: Machine<S>,
    blocks: Map<u32, BlockView>,
    id: u32,
    k: u32,
    s: S,
    n: nat,
    t: S,
    value: Option<Operand>,
)
    requires
        knows_entries(blocks),
        blocks.contains_key(id),
        thread_step(blocks, id) is Some,
        only_jump(blocks[id].instructions) is Some,
        can_thread(blocks, id),
        travel(m, blocks, k, s, n) == Some((t, value)),
    ensures
        yields(
            m,
            thread_step(blocks, id)->0,
            if k == id {
                (only_jump(blocks[id].instructions)->0).0
            } else {
                k
            },
            s,
            t,
            value,
        ),
    decreases n,
{
    let after = thread_step(blocks, id)->0;
    let target = only_jump(blocks[id].instructions)->0;
    if k == id {
        assert(leave(m, blocks[id].instructions, 0, s) == (s, Exit::To(target.0)));
        lemma_thread_forward(m, blocks, id, target.0, s, (n - 1) as nat, t, value);
    } else {
        lemma_thread_leave(m, blocks, id, k, s);
        assert(after.contains_key(k));
        lemma_yields_step(m, after, k, s, t, value);
        match leave(m, blocks[k].instructions, 0, s) {
            (u, Exit::To(next)) => {
                lemma_thread_forward(m, blocks, id, next, u, (n - 1) as nat, t, value);
            },
            (u, Exit::Past) => {
                let next = next_of(blocks, k)->0;
                lemma_thread_forward(m, blocks, id, next, u, (n - 1) as nat, t, value);
            },
            _ => {},
        }
    }
}

proof fn lemma_thread_backward<S>(
    m: Machine<S>,
    blocks: Map<u32, BlockView>,
    id: u32,
    k: u32,
    s: S,
    n: nat,
    t: S,
    value: Option<Operand>,
)
    requires
        knows_entries(blocks),
        blocks.contains_key(id),
        thread_step(blocks, id) is Some,
        only_jump(blocks[id].instructions) is Some,
        can_thread(blocks, id),
        travel(m, thread_step(blocks, id)->0, k, s, n) == Some((t, value)),
    ensures
        yields(m, blocks, k, s, t, value),
    decreases n,
{
    let after = thread_step(blocks, id)->0;
    let target = only_jump(blocks[id].instructions)->0;
    assert(after.contains_key(k));
    lemma_thread_leave(m, blocks, id, k, s);
    lemma_yields_step(m, blocks, k, s, t, value);
    match leave(m, blocks[k].instructions, 0, s) {
        (u, Exit::To(next)) => {
            if next == id {
                lemma_thread_backward(m, blocks, id, target.0, u, (n - 1) as nat, t, value);
                assert(leave(m, blocks[id].instructions, 0, u) == (u, Exit::To(target.0)));
                lemma_yields_step(m, blocks, id, u, t, value);
            } else {
                lemma_thread_backward(m, blocks, id, next, u, (n - 1) as nat, t, value);
            }
        },
        (u, Exit::Past) => {
            let next = next_of(blocks, k)->0;
            lemma_thread_backward(m, blocks, id, next, u, (n - 1) as nat, t, value);
        },
        _ => {},
    }
}

proof fn lemma_redirected_falls(code: Seq<InstructionView>, id: u32, target: BlockId)
    ensures
        falls(redirected_code(code, id, target)) == falls(code),
{
    let after = redirected_code(code, id, target);
    if falls(code) {
        assert forall|i: int| 0 <= i < after.len() implies !is_control(#[trigger] after[i]) by {
            assert(!is_control(code[i]));
        }
    }
    if falls(after) {
        assert forall|i: int| 0 <= i < code.len() implies !is_control(#[trigger] code[i]) by {
            assert(!is_control(after[i]));
        }
    }
}

proof fn lemma_thread_step_runs<S>(
    m: Machine<S>,
    blocks: Map<u32, BlockView>,
    id: u32,
    s: S,
    t: S,
    value: Option<Operand>,
)
    requires
        knows_entries(blocks),
        blocks.contains_key(id),
        thread_step(blocks, id) is Some,
        can_thread(blocks, id),
    ensures
        yields(m, thread_step(blocks, id)->0, 0, s, t, value) <==> yields(
            m,
            blocks,
            0,
            s,
            t,
            value,
        ),
        knows_entries(thread_step(blocks, id)->0),
{
    let after = thread_step(blocks, id)->0;
    if only_jump(blocks[id].instructions) is Some {
        let target = only_jump(blocks[id].instructions)->0;
        if yields(m, blocks, 0, s, t, value) {
            let n = choose|n: nat| #[trigger] travel(m, blocks, 0, s, n) == Some((t, value));
            lemma_thread_forward(m, blocks, id, 0, s, n, t, value);
        }
        if yields(m, after, 0, s, t, value) {
            let n = choose|n: nat| #[trigger] travel(m, after, 0, s, n) == Some((t, value));
            lemma_thread_backward(m, blocks, id, 0, s, n, t, value);
        }
        lemma_thread_step_links(blocks, id);
        assert(after.dom() =~= blocks.dom().remove(id));
        assert forall|k: u32, t: u32|
            #[trigger] after.contains_key(k) && falls(after[k].instructions) && #[trigger] is_next(
                after,
                k,
                t,
            ) implies after[t].predecessors.contains(k) by {
            lemma_redirected_falls(blocks[k].instructions, id, target);
            assert(blocks.contains_key(k) && falls(blocks[k].instructions));
            lemma_next_kept(blocks, after, id, k);
            assert(is_next(blocks, k, t));
        }
    }
}

/// Whether the blocks among the first `n` of the listed ones that come to be
/// nothing but a jump can be dropped.
pub open spec fn can_thread_upto(blocks: Map<u32, BlockView>, ids: Seq<u32>, n: nat) -> bool
    decreases n,
{
    n == 0 || (can_thread_upto(blocks, ids, (n - 1) as nat) && (thread_upto(
        blocks,
        ids,
        (n - 1) as nat,
    ) matches Some(before) ==> can_thread(before, ids[n - 1])))
}

proof fn lemma_thread_upto_runs<S>(
    m: Machine<S>,
    blocks: Map<u32, BlockView>,
    ids: Seq<u32>,
    n: nat,
    s: S,
    t: S,
    value: Option<Operand>,
)
    requires
        knows_entries(blocks),
        lists(ids, blocks.dom()),
        n <= ids.len(),
        thread_upto(blocks, ids, n) is Some,
        can_thread_upto(blocks, ids, n),
    ensures
        yields(m, thread_upto(blocks, ids, n)->0, 0, s, t, value) <==> yields(
            m,
            blocks,
            0,
            s,
            t,
            value,
        ),
        knows_entries(thread_upto(blocks, ids, n)->0),
    decreases n,
{
    if n > 0 {
        lemma_thread_upto_runs(m, blocks, ids, (n - 1) as nat, s, t, value);
        lemma_thread_keeps(blocks, ids, (n - 1) as nat);
        let before = thread_upto(blocks, ids, (n - 1) as nat)->0;
        assert(before.contains_key(ids[n - 1]));
        lemma_thread_step_runs(m, before, ids[n - 1], s, t, value);
    }
}

/// Whether blocks know where they are entered from, if what was noted as `p` is
/// by now part of the block `part_of(p)`.
spec fn knows_parts(blocks: Map<u32, BlockView>, part_of: spec_fn(u32) -> u32) -> bool {
    &&& forall|k: u32, t: u32| #[trigger]
        enters(blocks, k, t) ==> blocks.contains_key(t) && exists|p: u32|
            #[trigger] blocks[t].predecessors.contains(p) && part_of(p) == k
    &&& forall|k: u32| #[trigger] blocks.contains_key(k) ==> blocks[k].predecessors.finite()
}

/// A block that notes one entry alone is entered from one block alone.
proof fn lemma_one_entry(
    blocks: Map<u32, BlockView>,
    part_of: spec_fn(u32) -> u32,
    a: u32,
    b: u32,
    t: u32,
)
    requires
        knows_parts(blocks, part_of),
        enters(blocks, a, t),
        enters(blocks, b, t),
        blocks[t].predecessors.len() == 1,
    ensures
        a == b,
{
    let preds = blocks[t].predecessors;
    let p = choose|p: u32| #[trigger] preds.contains(p) && part_of(p) == a;
    let q = choose|q: u32| #[trigger] preds.contains(q) && part_of(q) == b;
    if p != q {
        assert(preds.remove(p).len() == 0);
        assert(preds.remove(p).contains(q));
        vstd::set_lib::lemma_set_empty_equivalency_len(preds.remove(p));
    }
}

proof fn lemma_leave_joined<S>(
    m: Machine<S>,
    head: Seq<InstructionView>,
    rest: Seq<InstructionView>,
    at: nat,
    s: S,
)
    requires
        at <= head.len(),
    ensures
        leave(m, head + rest, at, s) == match leave(m, head, at, s) {
            (t, Exit::Past) => leave(m, rest, 0, t),
            other => other,
        },
    decreases head.len() - at,
{
    if at < head.len() {
        assert((head + rest)[at as int] == head[at as int]);
        if !is_control(head[at as int]) {
            lemma_leave_joined(m, head, rest, at + 1, (m.act)(s, head[at as int]));
        }
    } else {
        lemma_leave_shifted(m, head, rest, 0, s);
    }
}

proof fn lemma_leave_shifted<S>(
    m: Machine<S>,
    head: Seq<InstructionView>,
    rest: Seq<InstructionView>,
    at: nat,
    s: S,
)
    ensures
        leave(m, head + rest, head.len() + at, s) == leave(m, rest, at, s),
    decreases rest.len() - at,
{
    if at < rest.len() {
        assert((head + rest)[head.len() as int + at as int] == rest[at as int]);
        if !is_control(rest[at as int]) {
            lemma_leave_shifted(m, head, rest, at + 1, (m.act)(s, rest[at as int]));
        }
    }
}

/// How control leaves code that ends in a jump, compared to the code without it.
proof fn lemma_leave_jump<S>(m: Machine<S>, code: Seq<InstructionView>, next: u32, s: S)
    requires
        code.len() > 0,
        final_jump(code) == Some(BlockId(next)),
    ensures
        leave(m, code, 0, s) == match leave(m, code.drop_last(), 0, s) {
            (t, Exit::Past) => (t, Exit::To(next)),
            other => other,
        },
{
    let head = code.drop_last();
    let jump = seq![code.last()];
    assert(code =~= head + jump);
    lemma_leave_joined(m, head, jump, 0, s);
    let t = leave(m, head, 0, s).0;
    assert(leave(m, jump, 0, t) == (t, Exit::To(next)));
}

/// Whether a block is joined to the one behind it without anything else in it
/// going there.
pub open spec fn can_merge(state: Merging, id: u32, next: u32) -> bool {
    let code = state.blocks[id].instructions;
    !state.evicted.contains(id) && final_jump(code) == Some(BlockId(next))
        && state.blocks[next].predecessors.len() == 1 ==> forall|i: int|
        0 <= i < code.len() - 1 ==> !goes_to(#[trigger] code[i], next)
}

/// Dropping the jump to the block right behind changes nothing.
proof fn lemma_shortened<S>(
    m: Machine<S>,
    blocks: Map<u32, BlockView>,
    part_of: spec_fn(u32) -> u32,
    id: u32,
    next: u32,
    k: u32,
    s: S,
    n: nat,
)
    requires
        knows_parts(blocks, part_of),
        blocks.contains_key(id),
        is_next(blocks, id, next),
        blocks[id].instructions.len() > 0,
        final_jump(blocks[id].instructions) == Some(BlockId(next)),
    ensures
        ({
            let after = blocks.insert(
                id,
                BlockView { instructions: blocks[id].instructions.drop_last(), ..blocks[id] },
            );
            &&& travel(m, after, k, s, n) == travel(m, blocks, k, s, n)
            &&& knows_parts(after, part_of)
        }),
    decreases n,
{
    let code = blocks[id].instructions;
    let after = blocks.insert(id, BlockView { instructions: code.drop_last(), ..blocks[id] });
    assert(after.dom() =~= blocks.dom());
    if n > 0 && blocks.contains_key(k) {
        lemma_next_alike(after, blocks, k);
        if k == id {
            lemma_leave_jump(m, code, next, s);
            lemma_next_unique(blocks, id, next);
        }
        match leave(m, blocks[k].instructions, 0, s) {
            (t, Exit::To(other)) => {
                lemma_shortened(m, blocks, part_of, id, next, other, t, (n - 1) as nat)
            },
            (t, Exit::Past) => match next_of(blocks, k) {
                Some(other) => {
                    lemma_shortened(m, blocks, part_of, id, next, other, t, (n - 1) as nat)
                },
                None => {},
            },
            _ => {},
        }
    }
    assert forall|a: u32, t: u32| #[trigger] enters(after, a, t) implies after.contains_key(t)
        && exists|p: u32| #[trigger] after[t].predecessors.contains(p) && part_of(p) == a by {
        assert(enters(blocks, a, t)) by {
            if exists|i: int|
                0 <= i < after[a].instructions.len() && goes_to(
                    #[trigger] after[a].instructions[i],
                    t,
                ) {
                let i = choose|i: int|
                    0 <= i < after[a].instructions.len() && goes_to(
                        #[trigger] after[a].instructions[i],
                        t,
                    );
                assert(goes_to(blocks[a].instructions[i], t));
            } else {
                assert(is_next(blocks, a, t)) by {
                    lemma_next_alike(after, blocks, a);
                    lemma_next_unique(after, a, t);
                }
                if a == id {
                    lemma_next_unique(blocks, id, next);
                    lemma_next_unique(blocks, id, t);
                    assert(goes_to(blocks[id].instructions[code.len() - 1], next));
                }
            }
        }
        let p = choose|p: u32| #[trigger] blocks[t].predecessors.contains(p) && part_of(p) == a;
        assert(after[t].predecessors.contains(p));
    }
}

/// What joining two blocks makes of how control leaves them.
proof fn lemma_joined_leave<S>(
    m: Machine<S>,
    blocks: Map<u32, BlockView>,
    part_of: spec_fn(u32) -> u32,
    id: u32,
    next: u32,
    k: u32,
    s: S,
)
    requires
        knows_parts(blocks, part_of),
        blocks.contains_key(id),
        blocks.contains_key(k),
        is_next(blocks, id, next),
        blocks[next].predecessors.len() == 1,
        final_jump(blocks[id].instructions) == Some(BlockId(next)),
        blocks[id].instructions.len() > 0,
        forall|i: int|
            0 <= i < blocks[id].instructions.len() - 1 ==> !goes_to(
                #[trigger] blocks[id].instructions[i],
                next,
            ),
    ensures
        ({
            let head = blocks[id].instructions.drop_last();
            let after = blocks.remove(next).insert(
                id,
                BlockView { instructions: head + blocks[next].instructions, ..blocks[id] },
            );
            &&& enters(blocks, id, next)
            &&& k != id && enters(blocks, k, next) ==> false
            &&& k != id ==> leave(m, blocks[k].instructions, 0, s).1 != Exit::To(next)
            &&& k != id && k != next && falls(blocks[k].instructions) ==> next_of(after, k)
                == next_of(blocks, k) && next_of(blocks, k) != Some(next)
            &&& next_of(after, id) == next_of(blocks, next)
            &&& next_of(blocks, next) != Some(next)
            &&& leave(m, head, 0, s).1 != Exit::To(next)
        }),
{
    let code = blocks[id].instructions;
    let head = code.drop_last();
    let after = blocks.remove(next).insert(
        id,
        BlockView { instructions: head + blocks[next].instructions, ..blocks[id] },
    );
    assert(after.dom() =~= blocks.dom().remove(next));
    assert(enters(blocks, id, next)) by {
        assert(goes_to(blocks[id].instructions[code.len() - 1], next));
    }
    if k != id && enters(blocks, k, next) {
        lemma_one_entry(blocks, part_of, k, id, next);
    }
    lemma_leave_enters(m, blocks, k, s);
    if k != id && k != next && falls(blocks[k].instructions) {
        assert(!is_next(blocks, k, next));
        lemma_next_kept(blocks, after, next, k);
        if next_of(blocks, k) == Some(next) {
            assert(is_next(blocks, k, next));
        }
    }
    if next_of(blocks, next) is Some {
        let far = next_of(blocks, next)->0;
        assert(is_next(blocks, next, far));
        assert(is_next(after, id, far)) by {
            assert forall|j: u32| #[trigger] after.contains_key(j) && id < j implies far <= j by {
                assert(blocks.contains_key(j));
                assert(next <= j);
            }
        }
        lemma_next_unique(after, id, far);
    } else if next_of(after, id) is Some {
        let far = next_of(after, id)->0;
        assert(is_next(after, id, far));
        assert(blocks.contains_key(far) && next < far);
        lemma_next_exists(blocks, next, far);
    }
    lemma_leave_past(m, head, 0, s);
    if leave(m, head, 0, s).1 == Exit::To(next) {
        let i = choose|i: int| 0 <= i < head.len() && goes_to(#[trigger] head[i], next);
        assert(goes_to(code[i], next));
    }
}

proof fn lemma_join_forward<S>(
    m: Machine<S>,
    blocks: Map<u32, BlockView>,
    part_of: spec_fn(u32) -> u32,
    id: u32,
    next: u32,
    k: u32,
    s: S,
    n: nat,
    t: S,
    value: Option<Operand>,
)
    requires
        knows_parts(blocks, part_of),
        blocks.contains_key(id),
        is_next(blocks, id, next),
        blocks[next].predecessors.len() == 1,
        final_jump(blocks[id].instructions) == Some(BlockId(next)),
        blocks[id].instructions.len() > 0,
        forall|i: int|
            0 <= i < blocks[id].instructions.len() - 1 ==> !goes_to(
                #[trigger] blocks[id].instructions[i],
                next,
            ),
        k != next,
        travel(m, blocks, k, s, n) == Some((t, value)),
    ensures
        yields(
            m,
            blocks.remove(next).insert(
                id,
                BlockView {
                    instructions: blocks[id].instructions.drop_last() + blocks[next].instructions,
                    ..blocks[id]
                },
            ),
            k,
            s,
            t,
            value,
        ),
    decreases n,
{
    let head = blocks[id].instructions.drop_last();
    let rest = blocks[next].instructions;
    let after = blocks.remove(next).insert(
        id,
        BlockView { instructions: head + rest, ..blocks[id] },
    );
    assert(after.contains_key(k));
    lemma_yields_step(m, after, k, s, t, value);
    lemma_joined_leave(m, blocks, part_of, id, next, k, s);
    lemma_leave_enters(m, blocks, k, s);
    if k == id {
        lemma_leave_jump(m, blocks[id].instructions, next, s);
        lemma_leave_joined(m, head, rest, 0, s);
        let (u, exit) = leave(m, head, 0, s);
        if exit is Past {
            lemma_joined_leave(m, blocks, part_of, id, next, next, u);
            match leave(m, rest, 0, u) {
                (w, Exit::To(far)) => {
                    lemma_join_forward(
                        m,
                        blocks,
                        part_of,
                        id,
                        next,
                        far,
                        w,
                        (n - 2) as nat,
                        t,
                        value,
                    );
                },
                (w, Exit::Past) => {
                    let far = next_of(blocks, next)->0;
                    lemma_join_forward(
                        m,
                        blocks,
                        part_of,
                        id,
                        next,
                        far,
                        w,
                        (n - 2) as nat,
                        t,
                        value,
                    );
                },
                _ => {},
            }
        } else if let Exit::To(far) = exit {
            lemma_join_forward(m, blocks, part_of, id, next, far, u, (n - 1) as nat, t, value);
        }
    } else {
        match leave(m, blocks[k].instructions, 0, s) {
            (u, Exit::To(far)) => {
                lemma_join_forward(m, blocks, part_of, id, next, far, u, (n - 1) as nat, t, value);
            },
            (u, Exit::Past) => {
                let far = next_of(blocks, k)->0;
                lemma_join_forward(m, blocks, part_of, id, next, far, u, (n - 1) as nat, t, value);
            },
            _ => {},
        }
    }
}

proof fn lemma_join_backward<S>(
    m: Machine<S>,
    blocks: Map<u32, BlockView>,
    part_of: spec_fn(u32) -> u32,
    id: u32,
    next: u32,
    k: u32,
    s: S,
    n: nat,
    t: S,
    value: Option<Operand>,
)
    requires
        knows_parts(blocks, part_of),
        blocks.contains_key(id),
        is_next(blocks, id, next),
        blocks[next].predecessors.len() == 1,
        final_jump(blocks[id].instructions) == Some(BlockId(next)),
        blocks[id].instructions.len() > 0,
        forall|i: int|
            0 <= i < blocks[id].instructions.len() - 1 ==> !goes_to(
                #[trigger] blocks[id].instructions[i],
                next,
            ),
        travel(
            m,
            blocks.remove(next).insert(
                id,
                BlockView {
                    instructions: blocks[id].instructions.drop_last() + blocks[next].instructions,
                    ..blocks[id]
                },
            ),
            k,
            s,
            n,
        ) == Some((t, value)),
    ensures
        yields(m, blocks, k, s, t, value),
    decreases n,
{
    let head = blocks[id].instructions.drop_last();
    let rest = blocks[next].instructions;
    let after = blocks.remove(next).insert(
        id,
        BlockView { instructions: head + rest, ..blocks[id] },
    );
    assert(after.contains_key(k));
    assert(blocks.contains_key(k));
    lemma_yields_step(m, blocks, k, s, t, value);
    lemma_joined_leave(m, blocks, part_of, id, next, k, s);
    lemma_leave_enters(m, blocks, k, s);
    if k == id {
        lemma_leave_jump(m, blocks[id].instructions, next, s);
        lemma_leave_joined(m, head, rest, 0, s);
        let (u, exit) = leave(m, head, 0, s);
        if exit is Past {
            lemma_yields_step(m, blocks, next, u, t, value);
            lemma_joined_leave(m, blocks, part_of, id, next, next, u);
            match leave(m, rest, 0, u) {
                (w, Exit::To(far)) => {
                    lemma_join_backward(
                        m,
                        blocks,
                        part_of,
                        id,
                        next,
                        far,
                        w,
                        (n - 1) as nat,
                        t,
                        value,
                    );
                },
                (w, Exit::Past) => {
                    let far = next_of(after, id)->0;
                    lemma_join_backward(
                        m,
                        blocks,
                        part_of,
                        id,
                        next,
                        far,
                        w,
                        (n - 1) as nat,
                        t,
                        value,
                    );
                },
                _ => {},
            }
        } else if let Exit::To(far) = exit {
            lemma_join_backward(m, blocks, part_of, id, next, far, u, (n - 1) as nat, t, value);
        }
    } else {
        match leave(m, blocks[k].instructions, 0, s) {
            (u, Exit::To(far)) => {
                lemma_join_backward(m, blocks, part_of, id, next, far, u, (n - 1) as nat, t, value);
            },
            (u, Exit::Past) => {
                let far = next_of(after, k)->0;
                lemma_join_backward(m, blocks, part_of, id, next, far, u, (n - 1) as nat, t, value);
            },
            _ => {},
        }
    }
}

/// Joining keeps it known which block is entered from where.
proof fn lemma_join_knows(
    blocks: Map<u32, BlockView>,
    part_of: spec_fn(u32) -> u32,
    id: u32,
    next: u32,
)
    requires
        knows_parts(blocks, part_of),
        blocks.contains_key(id),
        is_next(blocks, id, next),
        blocks[next].predecessors.len() == 1,
        final_jump(blocks[id].instructions) == Some(BlockId(next)),
        blocks[id].instructions.len() > 0,
        forall|i: int|
            0 <= i < blocks[id].instructions.len() - 1 ==> !goes_to(
                #[trigger] blocks[id].instructions[i],
                next,
            ),
    ensures
        knows_parts(
            blocks.remove(next).insert(
                id,
                BlockView {
                    instructions: blocks[id].instructions.drop_last() + blocks[next].instructions,
                    ..blocks[id]
                },
            ),
            |p: u32|
                if part_of(p) == next {
                    id
                } else {
                    part_of(p)
                },
        ),
{
    let code = blocks[id].instructions;
    let head = code.drop_last();
    let rest = blocks[next].instructions;
    let after = blocks.remove(next).insert(
        id,
        BlockView { instructions: head + rest, ..blocks[id] },
    );
    let moved = |p: u32|
        if part_of(p) == next {
            id
        } else {
            part_of(p)
        };
    assert(after.dom() =~= blocks.dom().remove(next));
    assert(enters(blocks, id, next)) by {
        assert(goes_to(blocks[id].instructions[code.len() - 1], next));
    }
    assert forall|a: u32, t: u32| #[trigger] enters(after, a, t) implies after.contains_key(t)
        && exists|p: u32| #[trigger] after[t].predecessors.contains(p) && moved(p) == a by {
        let jumps = exists|i: int|
            0 <= i < after[a].instructions.len() && goes_to(#[trigger] after[a].instructions[i], t);
        if a == id {
            // entered from one of the two parts
            let from = if jumps {
                let i = choose|i: int|
                    0 <= i < after[a].instructions.len() && goes_to(
                        #[trigger] after[a].instructions[i],
                        t,
                    );
                if i < head.len() {
                    assert(goes_to(blocks[id].instructions[i], t));
                    id
                } else {
                    assert(goes_to(blocks[next].instructions[i - head.len()], t));
                    next
                }
            } else {
                assert(falls(rest)) by {
                    assert forall|i: int| 0 <= i < rest.len() implies !is_control(
                        #[trigger] rest[i],
                    ) by {
                        assert(!is_control(after[id].instructions[head.len() + i]));
                    }
                }
                assert(is_next(blocks, next, t)) by {
                    assert forall|j: u32| #[trigger] blocks.contains_key(j) && next < j implies t
                        <= j by {
                        assert(after.contains_key(j));
                    }
                    assert(blocks.contains_key(t));
                    assert(next <= t);
                }
                next
            };
            assert(enters(blocks, from, t));
            if t == next {
                if from == next {
                    lemma_one_entry(blocks, part_of, next, id, next);
                } else {
                    let i = choose|i: int|
                        0 <= i < after[a].instructions.len() && goes_to(
                            #[trigger] after[a].instructions[i],
                            t,
                        );
                    assert(goes_to(code[i], next));
                }
            }
            let p = choose|p: u32|
                #[trigger] blocks[t].predecessors.contains(p) && part_of(p) == from;
            assert(after[t].predecessors.contains(p) && moved(p) == a);
        } else {
            assert(enters(blocks, a, t)) by {
                if jumps {
                    let i = choose|i: int|
                        0 <= i < after[a].instructions.len() && goes_to(
                            #[trigger] after[a].instructions[i],
                            t,
                        );
                    assert(goes_to(blocks[a].instructions[i], t));
                } else {
                    if is_next(blocks, a, next) {
                        assert(enters(blocks, a, next));
                        lemma_one_entry(blocks, part_of, a, id, next);
                    }
                    lemma_next_kept(blocks, after, next, a);
                }
            }
            if t == next {
                lemma_one_entry(blocks, part_of, a, id, next);
            }
            let p = choose|p: u32| #[trigger] blocks[t].predecessors.contains(p) && part_of(p) == a;
            assert(after[t].predecessors.contains(p) && moved(p) == a);
        }
    }
}

/// Whether the first `n` of the listed blocks are joined to those behind them
/// without anything else in them going there.
pub open spec fn can_merge_upto(blocks: Map<u32, BlockView>, ids: Seq<u32>, n: nat) -> bool
    decreases n,
{
    n == 0 || (can_merge_upto(blocks, ids, (n - 1) as nat) && (merge_upto(
        blocks,
        ids,
        (n - 1) as nat,
    ) matches Some(state) ==> can_merge(state, ids[n - 1], ids[n as int])))
}

proof fn lemma_merge_upto_runs<S>(
    m: Machine<S>,
    blocks: Map<u32, BlockView>,
    part_of: spec_fn(u32) -> u32,
    ids: Seq<u32>,
    n: nat,
    s: S,
    t: S,
    value: Option<Operand>,
) -> (moved: spec_fn(u32) -> u32)
    requires
        knows_parts(blocks, part_of),
        lists(ids, blocks.dom()),
        n < ids.len() || n == 0,
        merge_upto(blocks, ids, n) is Some,
        can_merge_upto(blocks, ids, n),
    ensures
        knows_parts(merge_upto(blocks, ids, n)->0.blocks, moved),
        yields(m, merge_upto(blocks, ids, n)->0.blocks, 0, s, t, value) <==> yields(
            m,
            blocks,
            0,
            s,
            t,
            value,
        ),
        forall|k: u32| #[trigger] merge_upto(blocks, ids, n)->0.evicted.contains(k) ==> exists|j: int|
            0 <= j <= n && j < ids.len() && #[trigger] ids[j] == k,
    decreases n,
{
    if n == 0 {
        part_of
    } else {
        let earlier = lemma_merge_upto_runs(
            m,
            blocks,
            part_of,
            ids,
            (n - 1) as nat,
            s,
            t,
            value,
        );
        lemma_merge_keeps(blocks, ids, (n - 1) as nat);
        let state = merge_upto(blocks, ids, (n - 1) as nat)->0;
        let after = merge_upto(blocks, ids, n)->0;
        let (id, next) = (ids[n - 1], ids[n as int]);
        let code = state.blocks[id].instructions;
        assert(id < next);
        assert forall|k: u32| #[trigger] after.evicted.contains(k) implies exists|j: int|
            0 <= j <= n && j < ids.len() && #[trigger] ids[j] == k by {
            if state.evicted.contains(k) {
                let j = choose|j: int| 0 <= j <= n - 1 && j < ids.len() && #[trigger] ids[j] == k;
                assert(ids[j] == k);
            } else {
                assert(ids[n as int] == k);
            }
        }
        if !state.evicted.contains(id) && final_jump(code) == Some(BlockId(next)) {
            assert(state.blocks.contains_key(id));
            assert(state.blocks.contains_key(next));
            assert(is_next(state.blocks, id, next)) by {
                assert forall|k: u32| #[trigger] state.blocks.contains_key(k) && id < k implies next
                    <= k by {
                    assert(blocks.contains_key(k));
                    assert(ids.to_set().contains(k));
                    let j = ids.index_of(k);
                    assert(ids[j] == k);
                    if j < n - 1 {
                        assert(ids[j] < ids[n - 1]);
                    } else if j > n {
                        assert(ids[n as int] < ids[j]);
                    }
                }
            }
            let b = state.blocks;
            if b[next].predecessors.len() == 1 {
                lemma_join_knows(b, earlier, id, next);
                assert(after.blocks =~= b.remove(next).insert(
                    id,
                    BlockView { instructions: code.drop_last() + b[next].instructions, ..b[id] },
                ));
                if yields(m, b, 0, s, t, value) {
                    let fuel = choose|fuel: nat| #[trigger]
                        travel(m, b, 0, s, fuel) == Some((t, value));
                    lemma_join_forward(m, b, earlier, id, next, 0, s, fuel, t, value);
                }
                if yields(m, after.blocks, 0, s, t, value) {
                    let fuel = choose|fuel: nat| #[trigger]
                        travel(m, after.blocks, 0, s, fuel) == Some((t, value));
                    lemma_join_backward(m, b, earlier, id, next, 0, s, fuel, t, value);
                }
                |p: u32|
                    if earlier(p) == next {
                        id
                    } else {
                        earlier(p)
                    }
            } else {
                assert forall|fuel: nat| travel(m, after.blocks, 0, s, fuel) == #[trigger] travel(
                    m,
                    b,
                    0,
                    s,
                    fuel,
                ) by {
                    lemma_shortened(m, b, earlier, id, next, 0, s, fuel);
                }
                lemma_shortened(m, b, earlier, id, next, 0, s, 0);
                if yields(m, after.blocks, 0, s, t, value) {
                    let fuel = choose|fuel: nat| #[trigger]
                        travel(m, after.blocks, 0, s, fuel) == Some((t, value));
                    assert(travel(m, b, 0, s, fuel) == Some((t, value)));
                }
                if yields(m, b, 0, s, t, value) {
                    let fuel = choose|fuel: nat| #[trigger]
                        travel(m, b, 0, s, fuel) == Some((t, value));
                    assert(travel(m, after.blocks, 0, s, fuel) == Some((t, value)));
                }
                earlier
            }
        } else {
            earlier
        }
    }
}

/// How many pairs of neighbours there are.
pub open spec fn pair_count(ids: Seq<u32>) -> nat {
    if ids.len() > 0 {
        (ids.len() - 1) as nat
    } else {
        0
    }
}

/// Whether blocks can be joined with those behind them without changing what they
/// do.
pub open spec fn can_merge_all(blocks: Map<u32, BlockView>) -> bool {
    let ids = ascending(blocks.dom());
    can_merge_upto(blocks, ids, pair_count(ids))
}

proof fn lemma_merged_runs<S>(
    m: Machine<S>,
    blocks: Map<u32, BlockView>,
    part_of: spec_fn(u32) -> u32,
    s: S,
    t: S,
    value: Option<Operand>,
) -> (moved: spec_fn(u32) -> u32)
    requires
        knows_parts(blocks, part_of),
        blocks.dom().finite(),
        merged(blocks) is Some,
        can_merge_all(blocks),
    ensures
        knows_parts(merged(blocks)->0, moved),
        merged(blocks)->0.dom().finite(),
        yields(m, merged(blocks)->0, 0, s, t, value) <==> yields(m, blocks, 0, s, t, value),
{
    lemma_ascending(blocks.dom());
    let ids = ascending(blocks.dom());
    lemma_merge_keeps(blocks, ids, pair_count(ids));
    vstd::set_lib::lemma_set_subset_finite(blocks.dom(), merged(blocks)->0.dom());
    lemma_merge_upto_runs(m, blocks, part_of, ids, pair_count(ids), s, t, value)
}

/// Whether the passes can be applied to blocks without changing what they do. Some
/// code that the passes do not expect is left out: a block that goes in two ways
/// to a target that it no longer branches to, or to the block that it is joined
/// with; and a block that comes to be nothing but a jump but is the entry, jumps
/// to itself, or is run into from the end of the block before it.
pub open spec fn is_expected(blocks: Map<u32, BlockView>) -> bool {
    let cut = truncated(blocks);
    &&& forall|id: u32| #[trigger] cut.contains_key(id) ==> leaves_for_good(cut[id].instructions)
    &&& without_dead(cut) matches Some(alive) ==> {
        let ids = ascending(alive.dom());
        &&& can_thread_upto(alive, ids, ids.len())
        &&& threaded(alive) matches Some(direct) ==> {
            &&& can_merge_all(direct)
            &&& merged(direct) matches Some(once) ==> can_merge_all(once)
        }
    }
}

/// Simplifying a function does not change what it does: run from its entry, from
/// any state, it returns the same value with the same state as before, or as
/// before does not return. So a branch on `true` goes on in its positive block and
/// one on `false` in its negative block, nothing that is run is dropped, and jumps
/// lead to where they led.
pub proof fn law_simplified_does_the_same<S>(
    m: Machine<S>,
    blocks: Map<u32, BlockView>,
    s: S,
    t: S,
    value: Option<Operand>,
)
    requires
        knows_booleans(m),
        blocks.dom().finite(),
        simplified(blocks) is Some,
        knows_entries(blocks),
        forall|id: u32| #[trigger] blocks.contains_key(id) ==> blocks[id].predecessors.finite(),
        is_expected(blocks),
    ensures
        yields(m, simplified(blocks)->0, 0, s, t, value) <==> yields(m, blocks, 0, s, t, value),
{
    let cut = truncated(blocks);
    assert(cut.dom() =~= blocks.dom());
    let alive = without_dead(cut)->0;
    lemma_truncated_runs(m, blocks, 0, s, 0);
    lemma_alive_runs(m, cut, s, 0);
    assert forall|n: nat| #[trigger] travel(m, alive, 0, s, n) == travel(m, blocks, 0, s, n) by {
        lemma_truncated_runs(m, blocks, 0, s, n);
        lemma_alive_runs(m, cut, s, n);
    }
    assert(yields(m, alive, 0, s, t, value) <==> yields(m, blocks, 0, s, t, value)) by {
        if yields(m, blocks, 0, s, t, value) {
            let n = choose|n: nat| #[trigger] travel(m, blocks, 0, s, n) == Some((t, value));
            assert(travel(m, alive, 0, s, n) == Some((t, value)));
        }
        if yields(m, alive, 0, s, t, value) {
            let n = choose|n: nat| #[trigger] travel(m, alive, 0, s, n) == Some((t, value));
            assert(travel(m, blocks, 0, s, n) == Some((t, value)));
        }
    }
    lemma_alive_finite(cut);
    let ids = ascending(alive.dom());
    lemma_ascending(alive.dom());
    lemma_thread_upto_runs(m, alive, ids, ids.len(), s, t, value);
    lemma_thread_finite(alive, ids, ids.len());
    lemma_thread_keeps(alive, ids, ids.len());
    let direct = threaded(alive)->0;
    vstd::set_lib::lemma_set_subset_finite(alive.dom(), direct.dom());
    let own = |p: u32| p;
    assert(knows_parts(direct, own)) by {
        assert forall|k: u32, t: u32| #[trigger] enters(direct, k, t) implies direct.contains_key(t)
            && exists|p: u32| #[trigger] direct[t].predecessors.contains(p) && own(p) == k by {
            lemma_enters_known(direct, k, t);
            assert(direct[t].predecessors.contains(k) && own(k) == k);
        }
    }
    let moved = lemma_merged_runs(m, direct, own, s, t, value);
    let once = merged(direct)->0;
    let again = lemma_merged_runs(m, once, moved, s, t, value);
}

/// Whether all blocks note finitely many entries.
spec fn notes_finite(blocks: Map<u32, BlockView>) -> bool {
    forall|id: u32| #[trigger] blocks.contains_key(id) ==> blocks[id].predecessors.finite()
}

proof fn lemma_dead_finite(blocks: Map<u32, BlockView>, ids: Seq<u32>, n: nat)
    requires
        lists(ids, blocks.dom()),
        n <= ids.len(),
        notes_finite(blocks),
        dead_upto(blocks, ids, n) is Some,
    ensures
        notes_finite(dead_upto(blocks, ids, n)->0),
    decreases n,
{
    if n > 0 {
        lemma_dead_finite(blocks, ids, (n - 1) as nat);
        lemma_dead_keeps(blocks, ids, (n - 1) as nat);
        let before = dead_upto(blocks, ids, (n - 1) as nat)->0;
        let after = dead_upto(blocks, ids, n)->0;
        assert(before.contains_key(ids[n - 1]));
        assert forall|id: u32| #[trigger]
            after.contains_key(id) implies after[id].predecessors.finite() by {
            assert(before.contains_key(id));
        }
    }
}

proof fn lemma_dropped_finite(blocks: Map<u32, BlockView>, n: nat)
    requires
        notes_finite(blocks),
    ensures
        notes_finite(dropped_upto(blocks, n)),
    decreases n,
{
    if n > 0 && exists|id: u32| is_first_dead(blocks, id) {
        let id = choose|id: u32| is_first_dead(blocks, id);
        lemma_dropped_finite(unlinked(blocks.remove(id), id), (n - 1) as nat);
    }
}

proof fn lemma_alive_finite(blocks: Map<u32, BlockView>)
    requires
        blocks.dom().finite(),
        notes_finite(blocks),
        without_dead(blocks) is Some,
    ensures
        notes_finite(without_dead(blocks)->0),
        without_dead(blocks)->0.dom().finite(),
{
    let ids = ascending(blocks.dom());
    lemma_ascending(blocks.dom());
    lemma_dead_finite(blocks, ids, ids.len());
    lemma_dead_keeps(blocks, ids, ids.len());
    let swept = dead_upto(blocks, ids, ids.len())->0;
    vstd::set_lib::lemma_set_subset_finite(blocks.dom(), swept.dom());
    lemma_dropped_finite(swept, swept.dom().len());
    lemma_dropped_keeps(swept, swept.dom().len());
    vstd::set_lib::lemma_set_subset_finite(swept.dom(), without_dead(blocks)->0.dom());
}

proof fn lemma_thread_finite(blocks: Map<u32, BlockView>, ids: Seq<u32>, n: nat)
    requires
        lists(ids, blocks.dom()),
        n <= ids.len(),
        notes_finite(blocks),
        thread_upto(blocks, ids, n) is Some,
    ensures
        notes_finite(thread_upto(blocks, ids, n)->0),
    decreases n,
{
    if n > 0 {
        lemma_thread_finite(blocks, ids, (n - 1) as nat);
        lemma_thread_keeps(blocks, ids, (n - 1) as nat);
        let before = thread_upto(blocks, ids, (n - 1) as nat)->0;
        let after = thread_upto(blocks, ids, n)->0;
        assert(before.contains_key(ids[n - 1]));
        assert forall|id: u32| #[trigger]
            after.contains_key(id) implies after[id].predecessors.finite() by {
            assert(before.contains_key(id));
            assert(before[ids[n - 1]].predecessors.finite());
        }
    }
}

/// No block that is nothing but a jump is left once jumps are threaded.
pub proof fn law_no_jump_blocks(blocks: Map<u32, BlockView>)
    requires
        blocks.dom().finite(),
        threaded(blocks) is Some,
    ensures
        forall|id: u32| #[trigger]
            threaded(blocks)->0.contains_key(id) ==> !(threaded(blocks)->0[id].instructions.len()
                == 1 && threaded(blocks)->0[id].instructions[0] is Jump),
{
    let ids = ascending(blocks.dom());
    lemma_ascending(blocks.dom());
    lemma_no_jump_blocks(blocks, ids, ids.len());
    lemma_thread_keeps(blocks, ids, ids.len());
    let after = threaded(blocks)->0;
    assert forall|id: u32| #[trigger] after.contains_key(id) implies !(
    after[id].instructions.len() == 1 && after[id].instructions[0] is Jump) by {
        assert(ids.to_set().contains(id));
        let k = ids.index_of(id);
        assert(ids[k] == id);
        assert(only_jump(after[ids[k]].instructions) is None);
    }
}

proof fn lemma_no_jump_blocks(blocks: Map<u32, BlockView>, ids: Seq<u32>, n: nat)
    requires
        lists(ids, blocks.dom()),
        n <= ids.len(),
        thread_upto(blocks, ids, n) is Some,
    ensures
        forall|k: int|
            0 <= k < n && thread_upto(blocks, ids, n)->0.contains_key(#[trigger] ids[k])
                ==> only_jump(thread_upto(blocks, ids, n)->0[ids[k]].instructions) is None,
    decreases n,
{
    if n > 0 {
        lemma_no_jump_blocks(blocks, ids, (n - 1) as nat);
        lemma_thread_keeps(blocks, ids, (n - 1) as nat);
        let before = thread_upto(blocks, ids, (n - 1) as nat)->0;
        let after = thread_upto(blocks, ids, n)->0;
        let id = ids[n - 1];
        assert forall|k: int|
            0 <= k < n && after.contains_key(#[trigger] ids[k]) implies only_jump(
            after[ids[k]].instructions,
        ) is None by {
            if k < n - 1 {
                assert(ids[k] < ids[n - 1]);
                assert(before.contains_key(ids[k]));
                assert(only_jump(before[ids[k]].instructions) is None);
                let code = before[ids[k]].instructions;
                if let Some(target) = only_jump(before[id].instructions) {
                    if code.len() == 1 {
                        assert(redirected_code(code, id, target)[0] == redirected(
                            code[0],
                            id,
                            target,
                        ));
                    }
                }
            }
        }
    }
}

} // verus!
