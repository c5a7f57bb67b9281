//! What the copies that replace phis do to the registers.

use crate::backend::ssa_destruction::{
    assign_upto, assigned_upto, copy_upto, destructed, first_fresh_register, phis_of, phis_step,
    phis_upto, placed, save_upto, saved_upto, without_critical_edges, without_phis, Copying,
    PhiView,
};
use crate::collections::{ascending, lemma_ascending, lists};
use crate::middle::lir::{
    ends_open, BlockView, FunctionView, Immediate, InstructionView, Operand, RegisterId,
};
use vstd::prelude::*;

verus! {

/// What an operand stands for, where `meaning` tells the values that stand in
/// the code.
pub open spec fn held<V>(
    registers: Map<u32, V>,
    meaning: spec_fn(Immediate) -> V,
    operand: Operand,
) -> V {
    match operand {
        Operand::Register(id) => registers[id.0],
        Operand::Immediate(immediate) => meaning(immediate),
    }
}

/// The registers once copies have run in order.
pub open spec fn copied<V>(
    registers: Map<u32, V>,
    meaning: spec_fn(Immediate) -> V,
    code: Seq<InstructionView>,
) -> Map<u32, V>
    decreases code.len(),
{
    if code.len() == 0 {
        registers
    } else {
        let before = copied(registers, meaning, code.drop_last());
        match code.last() {
            InstructionView::Copy { destination, source } => before.insert(
                destination.0,
                held(before, meaning, source),
            ),
            _ => before,
        }
    }
}

/// Instructions with a run of others before the jump that ends them.
pub open spec fn with_run(code: Seq<InstructionView>, run: Seq<InstructionView>) -> Seq<
    InstructionView,
> {
    if ends_open(code) {
        code + run
    } else {
        code.drop_last() + run + seq![code.last()]
    }
}

/// Whether a phi takes a register from a block.
pub open spec fn takes_register(phi: PhiView, pred: u32) -> bool {
    phi.sources.contains_key(pred) && phi.sources[pred] is Register
}

/// The copies that save what the first `n` of some phis take from a block.
pub open spec fn saving_run(
    phis: Seq<PhiView>,
    values: Seq<Map<u32, Operand>>,
    pred: u32,
    n: nat,
) -> Seq<InstructionView>
    decreases n,
{
    if n == 0 {
        Seq::empty()
    } else {
        let before = saving_run(phis, values, pred, (n - 1) as nat);
        if takes_register(phis[n - 1], pred) {
            before.push(
                InstructionView::Copy {
                    destination: values[n - 1][pred]->Register_0,
                    source: phis[n - 1].sources[pred],
                },
            )
        } else {
            before
        }
    }
}

/// The copies that fill the registers of the first `n` of some phis in a block.
pub open spec fn assigning_run(
    phis: Seq<PhiView>,
    values: Seq<Map<u32, Operand>>,
    pred: u32,
    n: nat,
) -> Seq<InstructionView>
    decreases n,
{
    if n == 0 {
        Seq::empty()
    } else {
        let before = assigning_run(phis, values, pred, (n - 1) as nat);
        if phis[n - 1].sources.contains_key(pred) {
            before.push(
                InstructionView::Copy {
                    destination: phis[n - 1].destination,
                    source: values[n - 1][pred],
                },
            )
        } else {
            before
        }
    }
}

/// The copies that stand in a block for the phis of another one.
pub open spec fn copies_for(state: Copying, phis: Seq<PhiView>, pred: u32) -> Seq<
    InstructionView,
> {
    let values = saved_upto(state, phis, phis.len())->0.values;
    saving_run(phis, values, pred, phis.len()) + assigning_run(phis, values, pred, phis.len())
}

/// How many values the first `n` of some phis take.
pub open spec fn source_count(phis: Seq<PhiView>, n: nat) -> nat
    decreases n,
{
    if n == 0 {
        0
    } else {
        source_count(phis, (n - 1) as nat) + ascending(phis[n - 1].sources.dom()).len()
    }
}

proof fn lemma_placed(code: Seq<InstructionView>, run: Seq<InstructionView>, copy: InstructionView)
    requires
        forall|i: int| 0 <= i < run.len() ==> (#[trigger] run[i]) is Copy,
        copy is Copy,
    ensures
        placed(with_run(code, run), copy) == with_run(code, run.push(copy)),
{
    let longer = with_run(code, run);
    if ends_open(code) {
        if run.len() > 0 {
            assert(longer.last() == run.last());
        } else {
            assert(longer =~= code);
        }
        assert(longer.push(copy) =~= code + run.push(copy));
    } else {
        assert(longer.last() == code.last());
        assert(longer.insert(longer.len() - 1, copy) =~= code.drop_last() + run.push(copy) + seq![
            code.last(),
        ]);
    }
}

proof fn lemma_no_run(code: Seq<InstructionView>)
    ensures
        with_run(code, Seq::empty()) == code,
{
    assert(with_run(code, Seq::empty()) =~= code);
}

/// What saving does to a block.
proof fn lemma_save(
    state: Copying,
    sources: Map<u32, Operand>,
    preds: Seq<u32>,
    n: nat,
    pred: u32,
)
    requires
        lists(preds, sources.dom()),
        n <= preds.len(),
        save_upto(state, sources, preds, n) is Some,
        state.next + n <= u32::MAX,
    ensures
        ({
            let h = save_upto(state, sources, preds, n)->0;
            let there = exists|k: int| 0 <= k < n && #[trigger] preds[k] == pred;
            &&& state.next <= h.state.next <= state.next + n
            &&& state.blocks.contains_key(pred) ==> h.state.blocks.contains_key(pred)
            &&& there ==> h.values.contains_key(pred)
            &&& there && sources[pred] is Immediate ==> h.values[pred] == sources[pred]
            &&& there && sources[pred] is Register ==> {
                &&& h.values[pred] is Register
                &&& state.next <= h.values[pred]->Register_0.0 < h.state.next
                &&& h.state.blocks[pred].instructions == placed(
                    state.blocks[pred].instructions,
                    InstructionView::Copy {
                        destination: h.values[pred]->Register_0,
                        source: sources[pred],
                    },
                )
            }
            &&& !(there && sources[pred] is Register) ==> h.state.blocks[pred].instructions
                == state.blocks[pred].instructions
        }),
    decreases n,
{
    if n > 0 {
        lemma_save(state, sources, preds, (n - 1) as nat, pred);
        let before = save_upto(state, sources, preds, (n - 1) as nat)->0;
        let last = preds[n - 1];
        if exists|k: int| 0 <= k < n - 1 && #[trigger] preds[k] == pred {
            let k = choose|k: int| 0 <= k < n - 1 && #[trigger] preds[k] == pred;
            assert(preds[k] < preds[n - 1]);
        }
    }
}

/// What filling the register of a phi does to a block.
proof fn lemma_assign(
    blocks: Map<u32, BlockView>,
    destination: RegisterId,
    values: Map<u32, Operand>,
    preds: Seq<u32>,
    n: nat,
    pred: u32,
)
    requires
        crate::collections::increasing(preds),
        n <= preds.len(),
    ensures
        ({
            let after = assign_upto(blocks, destination, values, preds, n);
            let there = exists|k: int| 0 <= k < n && #[trigger] preds[k] == pred;
            &&& there ==> after[pred].instructions == placed(
                blocks[pred].instructions,
                InstructionView::Copy { destination, source: values[pred] },
            )
            &&& !there ==> after[pred].instructions == blocks[pred].instructions
            &&& blocks.contains_key(pred) ==> after.contains_key(pred)
        }),
    decreases n,
{
    if n > 0 {
        lemma_assign(blocks, destination, values, preds, (n - 1) as nat, pred);
        if exists|k: int| 0 <= k < n - 1 && #[trigger] preds[k] == pred {
            let k = choose|k: int| 0 <= k < n - 1 && #[trigger] preds[k] == pred;
            assert(preds[k] < preds[n - 1]);
        }
        assert(preds[n - 1] == preds[n - 1]);
    }
}

proof fn lemma_there(preds: Seq<u32>, ids: Set<u32>, pred: u32)
    requires
        lists(preds, ids),
    ensures
        (exists|k: int| 0 <= k < preds.len() && #[trigger] preds[k] == pred) <==> ids.contains(
            pred,
        ),
{
    if ids.contains(pred) {
        assert(preds.to_set().contains(pred));
        let k = preds.index_of(pred);
        assert(preds[k] == pred);
    }
    if exists|k: int| 0 <= k < preds.len() && #[trigger] preds[k] == pred {
        let k = choose|k: int| 0 <= k < preds.len() && #[trigger] preds[k] == pred;
        assert(preds.to_set().contains(preds[k]));
    }
}

proof fn lemma_saving_run(
    phis: Seq<PhiView>,
    a: Seq<Map<u32, Operand>>,
    b: Seq<Map<u32, Operand>>,
    pred: u32,
    n: nat,
)
    requires
        forall|i: int| 0 <= i < n ==> a[i] == #[trigger] b[i],
    ensures
        saving_run(phis, a, pred, n) == saving_run(phis, b, pred, n),
        forall|i: int|
            0 <= i < saving_run(phis, a, pred, n).len() ==> (#[trigger] saving_run(
                phis,
                a,
                pred,
                n,
            )[i]) is Copy,
    decreases n,
{
    if n > 0 {
        lemma_saving_run(phis, a, b, pred, (n - 1) as nat);
        assert(a[n - 1] == b[n - 1]);
    }
}

proof fn lemma_assigning_run(
    phis: Seq<PhiView>,
    values: Seq<Map<u32, Operand>>,
    pred: u32,
    n: nat,
)
    ensures
        forall|i: int|
            0 <= i < assigning_run(phis, values, pred, n).len() ==> (#[trigger] assigning_run(
                phis,
                values,
                pred,
                n,
            )[i]) is Copy,
    decreases n,
{
    if n > 0 {
        lemma_assigning_run(phis, values, pred, (n - 1) as nat);
    }
}

/// The number of the register that a value was saved in.
spec fn saved_in(values: Seq<Map<u32, Operand>>, i: int, pred: u32) -> u32 {
    values[i][pred]->Register_0.0
}

/// Whether what the first `n` of some phis take from a block is saved in new
/// registers, numbered from `first` to before `last` in the order of the phis.
spec fn are_saved(
    phis: Seq<PhiView>,
    values: Seq<Map<u32, Operand>>,
    pred: u32,
    n: nat,
    first: u32,
    last: u32,
) -> bool {
    &&& forall|i: int|
        0 <= i < n && phis[i].sources.contains_key(pred) ==> {
            &&& phis[i].sources[pred] is Immediate ==> (#[trigger] values[i])[pred]
                == phis[i].sources[pred]
            &&& phis[i].sources[pred] is Register ==> values[i][pred] is Register && first
                <= saved_in(values, i, pred) < last
        }
    &&& forall|i: int, j: int|
        0 <= i < j < n && takes_register(phis[i], pred) && takes_register(phis[j], pred)
            ==> #[trigger] saved_in(values, i, pred) < #[trigger] saved_in(values, j, pred)
}

proof fn lemma_saved(state: Copying, phis: Seq<PhiView>, n: nat, pred: u32)
    requires
        n <= phis.len(),
        saved_upto(state, phis, n) is Some,
        forall|k: int| 0 <= k < n ==> (#[trigger] phis[k]).sources.dom().finite(),
        state.next + source_count(phis, n) <= u32::MAX,
    ensures
        ({
            let s = saved_upto(state, phis, n)->0;
            &&& s.values.len() == n
            &&& state.blocks.contains_key(pred) ==> s.state.blocks.contains_key(pred)
            &&& state.next <= s.state.next <= state.next + source_count(phis, n)
            &&& s.state.blocks[pred].instructions == with_run(
                state.blocks[pred].instructions,
                saving_run(phis, s.values, pred, n),
            )
            &&& are_saved(phis, s.values, pred, n, state.next, s.state.next)
        }),
    decreases n,
{
    if n == 0 {
        lemma_no_run(state.blocks[pred].instructions);
    } else {
        lemma_saved(state, phis, (n - 1) as nat, pred);
        let before = saved_upto(state, phis, (n - 1) as nat)->0;
        let s = saved_upto(state, phis, n)->0;
        let phi = phis[n - 1];
        let preds = ascending(phi.sources.dom());
        lemma_ascending(phi.sources.dom());
        lemma_there(preds, phi.sources.dom(), pred);
        lemma_save(before.state, phi.sources, preds, preds.len(), pred);
        let run = saving_run(phis, before.values, pred, (n - 1) as nat);
        assert forall|i: int| 0 <= i < n - 1 implies before.values[i] == #[trigger] s.values[i] by {
        }
        lemma_saving_run(phis, before.values, s.values, pred, (n - 1) as nat);
        let code = state.blocks[pred].instructions;
        if takes_register(phi, pred) {
            lemma_placed(
                code,
                run,
                InstructionView::Copy {
                    destination: s.values[n - 1][pred]->Register_0,
                    source: phi.sources[pred],
                },
            );
        }
        assert forall|i: int| 0 <= i < n && phis[i].sources.contains_key(pred) implies {
            &&& phis[i].sources[pred] is Immediate ==> (#[trigger] s.values[i])[pred]
                == phis[i].sources[pred]
            &&& phis[i].sources[pred] is Register ==> s.values[i][pred] is Register && state.next
                <= saved_in(s.values, i, pred) < s.state.next
        } by {
            if i < n - 1 {
                assert(s.values[i] == before.values[i]);
            }
        }
        assert forall|i: int, j: int|
            0 <= i < j < n && takes_register(phis[i], pred) && takes_register(phis[j], pred) implies
            #[trigger] saved_in(s.values, i, pred) < #[trigger] saved_in(s.values, j, pred) by {
            assert(s.values[i] == before.values[i]);
            if j < n - 1 {
                assert(s.values[j] == before.values[j]);
                assert(saved_in(before.values, i, pred) < saved_in(before.values, j, pred));
            }
        }
    }
}

proof fn lemma_assigned(
    blocks: Map<u32, BlockView>,
    phis: Seq<PhiView>,
    values: Seq<Map<u32, Operand>>,
    n: nat,
    pred: u32,
    code: Seq<InstructionView>,
    run: Seq<InstructionView>,
)
    requires
        n <= phis.len(),
        forall|k: int| 0 <= k < n ==> (#[trigger] phis[k]).sources.dom().finite(),
        forall|i: int| 0 <= i < run.len() ==> (#[trigger] run[i]) is Copy,
        blocks[pred].instructions == with_run(code, run),
    ensures
        assigned_upto(blocks, phis, values, n)[pred].instructions == with_run(
            code,
            run + assigning_run(phis, values, pred, n),
        ),
        blocks.contains_key(pred) ==> assigned_upto(blocks, phis, values, n).contains_key(pred),
    decreases n,
{
    if n == 0 {
        assert(run + assigning_run(phis, values, pred, 0) =~= run);
    } else {
        lemma_assigned(blocks, phis, values, (n - 1) as nat, pred, code, run);
        let phi = phis[n - 1];
        let preds = ascending(phi.sources.dom());
        lemma_ascending(phi.sources.dom());
        lemma_there(preds, phi.sources.dom(), pred);
        let before = assigned_upto(blocks, phis, values, (n - 1) as nat);
        lemma_assign(before, phi.destination, values[n - 1], preds, preds.len(), pred);
        lemma_assigning_run(phis, values, pred, (n - 1) as nat);
        let longer = run + assigning_run(phis, values, pred, (n - 1) as nat);
        if phi.sources.contains_key(pred) {
            let copy = InstructionView::Copy {
                destination: phi.destination,
                source: values[n - 1][pred],
            };
            lemma_placed(code, longer, copy);
            assert(longer.push(copy) =~= run + assigning_run(phis, values, pred, n));
        }
    }
}

proof fn lemma_copied<V>(
    registers: Map<u32, V>,
    meaning: spec_fn(Immediate) -> V,
    first: Seq<InstructionView>,
    rest: Seq<InstructionView>,
)
    ensures
        copied(registers, meaning, first + rest) == copied(
            copied(registers, meaning, first),
            meaning,
            rest,
        ),
    decreases rest.len(),
{
    if rest.len() == 0 {
        assert(first + rest =~= first);
    } else {
        assert((first + rest).drop_last() =~= first + rest.drop_last());
        lemma_copied(registers, meaning, first, rest.drop_last());
    }
}

/// Whether the registers of some phis, and those that they take from a block,
/// have numbers below `next`, and no two phis that take something from it have
/// the same register.
pub open spec fn are_distinct(phis: Seq<PhiView>, pred: u32, next: u32) -> bool {
    &&& forall|i: int|
        0 <= i < phis.len() && (#[trigger] phis[i]).sources.contains_key(pred) ==> {
            &&& phis[i].destination.0 < next
            &&& phis[i].sources[pred] matches Operand::Register(id) ==> id.0 < next
        }
    &&& forall|i: int, j: int|
        0 <= i < j < phis.len() && (#[trigger] phis[i]).sources.contains_key(pred) && (
        #[trigger] phis[j]).sources.contains_key(pred) ==> phis[i].destination
            != phis[j].destination
}

proof fn lemma_saving_runs<V>(
    phis: Seq<PhiView>,
    values: Seq<Map<u32, Operand>>,
    pred: u32,
    n: nat,
    first: u32,
    last: u32,
    registers: Map<u32, V>,
    meaning: spec_fn(Immediate) -> V,
)
    requires
        n <= phis.len(),
        are_saved(phis, values, pred, phis.len(), first, last),
        are_distinct(phis, pred, first),
    ensures
        ({
            let after = copied(registers, meaning, saving_run(phis, values, pred, n));
            &&& forall|i: int|
                0 <= i < n && takes_register(#[trigger] phis[i], pred) ==> after[saved_in(
                    values,
                    i,
                    pred,
                )] == held(registers, meaning, phis[i].sources[pred])
            &&& forall|q: u32| q < first ==> (#[trigger] after[q]) == registers[q]
        }),
    decreases n,
{
    if n > 0 {
        lemma_saving_runs(
            phis,
            values,
            pred,
            (n - 1) as nat,
            first,
            last,
            registers,
            meaning,
        );
        let run = saving_run(phis, values, pred, n);
        let before = copied(
            registers,
            meaning,
            saving_run(phis, values, pred, (n - 1) as nat),
        );
        let after = copied(registers, meaning, run);
        if takes_register(phis[n - 1], pred) {
            let id = phis[n - 1].sources[pred]->Register_0;
            assert(run.drop_last() =~= saving_run(phis, values, pred, (n - 1) as nat));
            assert(id.0 < first);
            assert(values[n - 1][pred] is Register);
            assert(after == before.insert(saved_in(values, n - 1, pred), before[id.0]));
            assert forall|i: int|
                0 <= i < n && takes_register(#[trigger] phis[i], pred) implies after[saved_in(
                values,
                i,
                pred,
            )] == held(registers, meaning, phis[i].sources[pred]) by {
                if i < n - 1 {
                    assert(saved_in(values, i, pred) < saved_in(values, n - 1, pred));
                }
            }
        }
    }
}

proof fn lemma_assigning_runs<V>(
    phis: Seq<PhiView>,
    values: Seq<Map<u32, Operand>>,
    pred: u32,
    n: nat,
    first: u32,
    last: u32,
    registers: Map<u32, V>,
    meaning: spec_fn(Immediate) -> V,
)
    requires
        n <= phis.len(),
        are_saved(phis, values, pred, phis.len(), first, last),
        are_distinct(phis, pred, first),
    ensures
        ({
            let after = copied(registers, meaning, assigning_run(phis, values, pred, n));
            &&& forall|i: int|
                0 <= i < n && (#[trigger] phis[i]).sources.contains_key(pred)
                    ==> after[phis[i].destination.0] == held(registers, meaning, values[i][pred])
            &&& forall|q: u32|
                (forall|i: int|
                    0 <= i < n && (#[trigger] phis[i]).sources.contains_key(pred)
                        ==> phis[i].destination.0 != q) ==> (#[trigger] after[q]) == registers[q]
        }),
    decreases n,
{
    if n > 0 {
        lemma_assigning_runs(
            phis,
            values,
            pred,
            (n - 1) as nat,
            first,
            last,
            registers,
            meaning,
        );
        let run = assigning_run(phis, values, pred, n);
        let before = copied(
            registers,
            meaning,
            assigning_run(phis, values, pred, (n - 1) as nat),
        );
        let after = copied(registers, meaning, run);
        let phi = phis[n - 1];
        if phi.sources.contains_key(pred) {
            let value = values[n - 1][pred];
            assert(run.drop_last() =~= assigning_run(phis, values, pred, (n - 1) as nat));
            assert(after == before.insert(phi.destination.0, held(before, meaning, value)));
            assert(held(before, meaning, value) == held(registers, meaning, value)) by {
                if phi.sources[pred] is Register {
                    let q = saved_in(values, n - 1, pred);
                    assert(values[n - 1][pred] is Register);
                    assert(first <= q);
                    assert forall|i: int|
                        0 <= i < n - 1 && (#[trigger] phis[i]).sources.contains_key(
                            pred,
                        ) implies phis[i].destination.0 != q by {}
                    assert(before[q] == registers[q]);
                }
            }
            assert forall|i: int|
                0 <= i < n && (#[trigger] phis[i]).sources.contains_key(
                    pred,
                ) implies after[phis[i].destination.0] == held(
                registers,
                meaning,
                values[i][pred],
            ) by {
                if i < n - 1 {
                    assert(phis[i].destination != phis[n - 1].destination);
                }
            }
            assert forall|q: u32|
                (forall|i: int|
                    0 <= i < n && (#[trigger] phis[i]).sources.contains_key(pred)
                        ==> phis[i].destination.0 != q) implies (#[trigger] after[q])
                == registers[q] by {
                assert(phis[n - 1].destination.0 != q);
                assert(before[q] == registers[q]);
            }
        }
    }
}

/// The copies that replace the phis of a block stand before the jump that ends
/// a block that it is entered from, with everything else there as it was. They
/// act as if they all ran at once: the register of each phi comes to hold what
/// its source held before any of them ran, also where that source is the
/// register of another phi. The other registers, but for the new ones, are kept.
pub proof fn law_copies_are_parallel<V>(
    state: Copying,
    phis: Seq<PhiView>,
    pred: u32,
    registers: Map<u32, V>,
    meaning: spec_fn(Immediate) -> V,
)
    requires
        phis_step(state, phis) is Some,
        forall|k: int| 0 <= k < phis.len() ==> (#[trigger] phis[k]).sources.dom().finite(),
        state.next + source_count(phis, phis.len()) <= u32::MAX,
        are_distinct(phis, pred, state.next),
    ensures
        ({
            let run = copies_for(state, phis, pred);
            let after = copied(registers, meaning, run);
            &&& phis_step(state, phis)->0.blocks[pred].instructions == with_run(
                state.blocks[pred].instructions,
                run,
            )
            &&& forall|i: int|
                0 <= i < phis.len() && (#[trigger] phis[i]).sources.contains_key(pred)
                    ==> after[phis[i].destination.0] == held(
                    registers,
                    meaning,
                    phis[i].sources[pred],
                )
            &&& forall|q: u32|
                q < state.next && (forall|i: int|
                    0 <= i < phis.len() && (#[trigger] phis[i]).sources.contains_key(pred)
                        ==> phis[i].destination.0 != q) ==> (#[trigger] after[q]) == registers[q]
        }),
{
    let n = phis.len();
    let saving = saved_upto(state, phis, n)->0;
    let values = saving.values;
    let first = saving_run(phis, values, pred, n);
    let rest = assigning_run(phis, values, pred, n);
    lemma_saved(state, phis, n, pred);
    lemma_saving_run(phis, values, values, pred, n);
    lemma_assigned(
        saving.state.blocks,
        phis,
        values,
        n,
        pred,
        state.blocks[pred].instructions,
        first,
    );
    let saved = copied(registers, meaning, first);
    lemma_saving_runs(
        phis,
        values,
        pred,
        n,
        state.next,
        saving.state.next,
        registers,
        meaning,
    );
    lemma_assigning_runs(phis, values, pred, n, state.next, saving.state.next, saved, meaning);
    lemma_copied(registers, meaning, first, rest);
    let after = copied(registers, meaning, copies_for(state, phis, pred));
    assert forall|i: int|
        0 <= i < phis.len() && (#[trigger] phis[i]).sources.contains_key(
            pred,
        ) implies after[phis[i].destination.0] == held(
        registers,
        meaning,
        phis[i].sources[pred],
    ) by {
        assert(after[phis[i].destination.0] == held(saved, meaning, values[i][pred]));
        if phis[i].sources[pred] is Register {
            assert(takes_register(phis[i], pred));
        }
    }
}

proof fn lemma_phis_same(a: Seq<InstructionView>, b: Seq<InstructionView>, n: nat)
    requires
        n <= a.len(),
        n <= b.len(),
        forall|i: int| 0 <= i < n ==> (#[trigger] a[i]) == b[i],
    ensures
        phis_upto(a, n) == phis_upto(b, n),
    decreases n,
{
    if n > 0 {
        lemma_phis_same(a, b, (n - 1) as nat);
        assert(a[n - 1] == b[n - 1]);
    }
}

/// Copies are no phis.
proof fn lemma_run_keeps_phis(code: Seq<InstructionView>, run: Seq<InstructionView>)
    requires
        forall|i: int| 0 <= i < run.len() ==> (#[trigger] run[i]) is Copy,
    ensures
        phis_upto(with_run(code, run), with_run(code, run).len()) == phis_upto(code, code.len()),
    decreases run.len(),
{
    if run.len() == 0 {
        lemma_no_run(code);
        assert(run =~= Seq::empty());
    } else {
        let fewer = run.drop_last();
        assert forall|i: int| 0 <= i < fewer.len() implies (#[trigger] fewer[i]) is Copy by {
            assert(fewer[i] == run[i]);
        }
        lemma_run_keeps_phis(code, fewer);
        lemma_placed(code, fewer, run.last());
        assert(fewer.push(run.last()) =~= run);
        let before = with_run(code, fewer);
        let after = with_run(code, run);
        if ends_open(before) {
            lemma_phis_same(before, after, before.len());
        } else {
            let n = (before.len() - 1) as nat;
            lemma_phis_same(before, after, n);
            assert(after[n as int] == run.last());
            assert(after[n as int + 1] == before.last());
            assert(phis_upto(after, n + 1) == phis_upto(after, n));
        }
    }
}

/// What replacing the phis of one block does to any block.
proof fn lemma_step(state: Copying, phis: Seq<PhiView>, q: u32)
    requires
        phis_step(state, phis) is Some,
        forall|k: int| 0 <= k < phis.len() ==> (#[trigger] phis[k]).sources.dom().finite(),
        state.next + source_count(phis, phis.len()) <= u32::MAX,
    ensures
        ({
            let after = phis_step(state, phis)->0;
            let run = copies_for(state, phis, q);
            &&& state.next <= after.next <= state.next + source_count(phis, phis.len())
            &&& state.blocks.contains_key(q) ==> after.blocks.contains_key(q)
            &&& after.blocks[q].instructions == with_run(state.blocks[q].instructions, run)
            &&& forall|i: int| 0 <= i < run.len() ==> (#[trigger] run[i]) is Copy
            &&& phis_of(after.blocks[q]) == phis_of(state.blocks[q])
        }),
{
    let n = phis.len();
    let saving = saved_upto(state, phis, n)->0;
    let first = saving_run(phis, saving.values, q, n);
    lemma_saved(state, phis, n, q);
    lemma_saving_run(phis, saving.values, saving.values, q, n);
    lemma_assigning_run(phis, saving.values, q, n);
    lemma_assigned(
        saving.state.blocks,
        phis,
        saving.values,
        n,
        q,
        state.blocks[q].instructions,
        first,
    );
    lemma_run_keeps_phis(state.blocks[q].instructions, copies_for(state, phis, q));
}

proof fn lemma_runs_join(
    code: Seq<InstructionView>,
    first: Seq<InstructionView>,
    rest: Seq<InstructionView>,
)
    requires
        forall|i: int| 0 <= i < first.len() ==> (#[trigger] first[i]) is Copy,
    ensures
        with_run(with_run(code, first), rest) == with_run(code, first + rest),
{
    let longer = with_run(code, first);
    if ends_open(code) {
        if first.len() > 0 {
            assert(longer.last() == first.last());
        } else {
            assert(longer =~= code);
        }
        assert(longer + rest =~= code + (first + rest));
    } else {
        assert(longer.last() == code.last());
        assert(longer.drop_last() + rest + seq![longer.last()] =~= code.drop_last() + (first
            + rest) + seq![code.last()]);
    }
}

/// A register that no copy fills is kept.
proof fn lemma_copied_keeps<V>(
    registers: Map<u32, V>,
    meaning: spec_fn(Immediate) -> V,
    run: Seq<InstructionView>,
    q: u32,
)
    requires
        forall|i: int|
            0 <= i < run.len() ==> ((#[trigger] run[i]) matches InstructionView::Copy {
                destination,
                ..
            } ==> destination.0 != q),
    ensures
        copied(registers, meaning, run)[q] == registers[q],
    decreases run.len(),
{
    if run.len() > 0 {
        let fewer = run.drop_last();
        assert forall|i: int| 0 <= i < fewer.len() implies ((
        #[trigger] fewer[i]) matches InstructionView::Copy { destination, .. } ==> destination.0
            != q) by {
            assert(fewer[i] == run[i]);
        }
        lemma_copied_keeps(registers, meaning, fewer, q);
        assert(run[run.len() - 1] == run.last());
    }
}

/// Saving fills new registers alone.
proof fn lemma_saving_fills(
    phis: Seq<PhiView>,
    values: Seq<Map<u32, Operand>>,
    pred: u32,
    n: nat,
    first: u32,
    last: u32,
)
    requires
        n <= phis.len(),
        are_saved(phis, values, pred, phis.len(), first, last),
    ensures
        forall|i: int|
            0 <= i < saving_run(phis, values, pred, n).len() ==> ((#[trigger] saving_run(
                phis,
                values,
                pred,
                n,
            )[i]) matches InstructionView::Copy { destination, .. } ==> first <= destination.0),
    decreases n,
{
    if n > 0 {
        lemma_saving_fills(phis, values, pred, (n - 1) as nat, first, last);
        if takes_register(phis[n - 1], pred) {
            assert(values[n - 1][pred] is Register && first <= saved_in(values, n - 1, pred));
        }
    }
}

/// Assigning fills the registers of phis alone.
proof fn lemma_assigning_fills(
    phis: Seq<PhiView>,
    values: Seq<Map<u32, Operand>>,
    pred: u32,
    n: nat,
    q: u32,
)
    requires
        n <= phis.len(),
        forall|k: int|
            0 <= k < n && (#[trigger] phis[k]).sources.contains_key(pred)
                ==> phis[k].destination.0 != q,
    ensures
        forall|i: int|
            0 <= i < assigning_run(phis, values, pred, n).len() ==> ((#[trigger] assigning_run(
                phis,
                values,
                pred,
                n,
            )[i]) matches InstructionView::Copy { destination, .. } ==> destination.0 != q),
    decreases n,
{
    if n > 0 {
        lemma_assigning_fills(phis, values, pred, (n - 1) as nat, q);
    }
}

/// The copies for the phis of a block change new registers and those of the
/// phis alone.
proof fn lemma_copies_keep<V>(
    state: Copying,
    phis: Seq<PhiView>,
    pred: u32,
    registers: Map<u32, V>,
    meaning: spec_fn(Immediate) -> V,
    q: u32,
)
    requires
        phis_step(state, phis) is Some,
        forall|k: int| 0 <= k < phis.len() ==> (#[trigger] phis[k]).sources.dom().finite(),
        state.next + source_count(phis, phis.len()) <= u32::MAX,
        q < state.next,
        forall|k: int|
            0 <= k < phis.len() && (#[trigger] phis[k]).sources.contains_key(pred)
                ==> phis[k].destination.0 != q,
    ensures
        copied(registers, meaning, copies_for(state, phis, pred))[q] == registers[q],
{
    let n = phis.len();
    let saving = saved_upto(state, phis, n)->0;
    lemma_saved(state, phis, n, pred);
    lemma_saving_fills(phis, saving.values, pred, n, state.next, saving.state.next);
    lemma_assigning_fills(phis, saving.values, pred, n, q);
    let first = saving_run(phis, saving.values, pred, n);
    let rest = assigning_run(phis, saving.values, pred, n);
    lemma_copied_keeps(registers, meaning, first, q);
    lemma_copied_keeps(copied(registers, meaning, first), meaning, rest, q);
    lemma_copied(registers, meaning, first, rest);
}

/// Whether the phis of some blocks take values from finitely many blocks each.
pub open spec fn have_finite_phis(blocks: Map<u32, BlockView>) -> bool {
    forall|id: u32, k: int|
        blocks.contains_key(id) && 0 <= k < phis_of(blocks[id]).len()
            ==> (#[trigger] phis_of(blocks[id])[k]).sources.dom().finite()
}

/// How many values the phis of the first `n` of the listed blocks take.
pub open spec fn total_count(blocks: Map<u32, BlockView>, ids: Seq<u32>, n: nat) -> nat
    decreases n,
{
    if n == 0 {
        0
    } else {
        total_count(blocks, ids, (n - 1) as nat) + source_count(
            phis_of(blocks[ids[n - 1]]),
            phis_of(blocks[ids[n - 1]]).len(),
        )
    }
}

proof fn lemma_total_grows(blocks: Map<u32, BlockView>, ids: Seq<u32>, n: nat, m: nat)
    requires
        n <= m,
    ensures
        total_count(blocks, ids, n) <= total_count(blocks, ids, m),
    decreases m,
{
    if n < m {
        lemma_total_grows(blocks, ids, n, (m - 1) as nat);
    }
}

/// Whether a register belongs to a phi of a block that takes something from
/// another block.
pub open spec fn is_filled(blocks: Map<u32, BlockView>, id: u32, pred: u32, q: u32) -> bool {
    exists|k: int|
        0 <= k < phis_of(blocks[id]).len() && (#[trigger] phis_of(
            blocks[id],
        )[k]).sources.contains_key(pred) && phis_of(blocks[id])[k].destination.0 == q
}

/// Whether what the phis of a block take from another block, and their
/// registers, are no registers of phis of further blocks that take something
/// from there.
pub open spec fn are_apart(blocks: Map<u32, BlockView>, id: u32, pred: u32) -> bool {
    forall|other: u32, k: int| #[trigger]
        blocks.contains_key(other) && other != id && 0 <= k < phis_of(blocks[id]).len()
            && #[trigger] phis_of(blocks[id])[k].sources.contains_key(pred) ==> {
            let phi = phis_of(blocks[id])[k];
            &&& !is_filled(blocks, other, pred, phi.destination.0)
            &&& phi.sources[pred] matches Operand::Register(from) ==> !is_filled(
                blocks,
                other,
                pred,
                from.0,
            )
        }
}

/// The copies that are put into a block for the phis of the first `n` of the
/// listed blocks.
pub open spec fn copies_upto(start: Copying, ids: Seq<u32>, pred: u32, n: nat) -> Seq<
    InstructionView,
>
    decreases n,
{
    if n == 0 {
        Seq::empty()
    } else {
        copies_upto(start, ids, pred, (n - 1) as nat) + copies_for(
            copy_upto(start, ids, (n - 1) as nat)->0,
            phis_of(start.blocks[ids[n - 1]]),
            pred,
        )
    }
}

proof fn lemma_copy_prefix(start: Copying, ids: Seq<u32>, n: nat, m: nat)
    requires
        n <= m,
        copy_upto(start, ids, m) is Some,
    ensures
        copy_upto(start, ids, n) is Some,
    decreases m,
{
    if n < m {
        lemma_copy_prefix(start, ids, n, (m - 1) as nat);
    }
}

/// What replacing the phis of the first `n` of the listed blocks does to a
/// block.
proof fn lemma_copy(start: Copying, ids: Seq<u32>, n: nat, q: u32)
    requires
        lists(ids, start.blocks.dom()),
        n <= ids.len(),
        copy_upto(start, ids, n) is Some,
        have_finite_phis(start.blocks),
        start.next + total_count(start.blocks, ids, n) <= u32::MAX,
    ensures
        ({
            let after = copy_upto(start, ids, n)->0;
            let run = copies_upto(start, ids, q, n);
            &&& start.next <= after.next <= start.next + total_count(start.blocks, ids, n)
            &&& phis_of(after.blocks[q]) == phis_of(start.blocks[q])
            &&& start.blocks.contains_key(q) ==> after.blocks.contains_key(q)
            &&& after.blocks[q].instructions == with_run(start.blocks[q].instructions, run)
            &&& forall|i: int| 0 <= i < run.len() ==> (#[trigger] run[i]) is Copy
        }),
    decreases n,
{
    if n == 0 {
        lemma_no_run(start.blocks[q].instructions);
    } else {
        let here = ids[n - 1];
        let before = copy_upto(start, ids, (n - 1) as nat)->0;
        lemma_copy(start, ids, (n - 1) as nat, q);
        lemma_copy(start, ids, (n - 1) as nat, here);
        let phis = phis_of(start.blocks[here]);
        lemma_finite_phis(start.blocks, ids, n - 1);
        lemma_step(before, phis, q);
        lemma_runs_join(
            start.blocks[q].instructions,
            copies_upto(start, ids, q, (n - 1) as nat),
            copies_for(before, phis, q),
        );
    }
}

proof fn lemma_finite_phis(blocks: Map<u32, BlockView>, ids: Seq<u32>, at: int)
    requires
        lists(ids, blocks.dom()),
        0 <= at < ids.len(),
        have_finite_phis(blocks),
    ensures
        blocks.contains_key(ids[at]),
        forall|k: int|
            0 <= k < phis_of(blocks[ids[at]]).len() ==> (#[trigger] phis_of(
                blocks[ids[at]],
            )[k]).sources.dom().finite(),
{
    assert(ids.to_set().contains(ids[at]));
}

/// The copies for all but one of the listed blocks keep a register that no phi
/// of those fills.
proof fn lemma_others_keep<V>(
    start: Copying,
    ids: Seq<u32>,
    pred: u32,
    n: nat,
    m: nat,
    registers: Map<u32, V>,
    meaning: spec_fn(Immediate) -> V,
    q: u32,
)
    requires
        lists(ids, start.blocks.dom()),
        n <= m <= ids.len(),
        copy_upto(start, ids, m) is Some,
        have_finite_phis(start.blocks),
        start.next + total_count(start.blocks, ids, m) <= u32::MAX,
        q < start.next,
        forall|k: int| n <= k < m ==> !is_filled(start.blocks, #[trigger] ids[k], pred, q),
    ensures
        copied(registers, meaning, copies_upto(start, ids, pred, m))[q] == copied(
            registers,
            meaning,
            copies_upto(start, ids, pred, n),
        )[q],
    decreases m,
{
    if n < m {
        let here = ids[m - 1];
        let before = copy_upto(start, ids, (m - 1) as nat)->0;
        lemma_others_keep(start, ids, pred, n, (m - 1) as nat, registers, meaning, q);
        lemma_copy(start, ids, (m - 1) as nat, here);
        lemma_finite_phis(start.blocks, ids, m - 1);
        let phis = phis_of(start.blocks[here]);
        assert(phis_of(before.blocks[here]) == phis);
        let first = copies_upto(start, ids, pred, (m - 1) as nat);
        assert(!is_filled(start.blocks, here, pred, q));
        assert forall|k: int|
            0 <= k < phis.len() && (#[trigger] phis[k]).sources.contains_key(
                pred,
            ) implies phis[k].destination.0 != q by {
            assert(phis_of(start.blocks[here])[k].sources.contains_key(pred));
        }
        lemma_copies_keep(before, phis, pred, copied(registers, meaning, first), meaning, q);
        lemma_copied(registers, meaning, first, copies_for(before, phis, pred));
    }
}

/// The state of a function once its critical edges are broken in two.
pub open spec fn split_state(function: FunctionView) -> Copying {
    Copying {
        blocks: without_critical_edges(function.blocks)->0,
        registers: function.registers,
        next: first_fresh_register(function.registers),
    }
}

/// The copies that are put into a block of a function for all its phis.
pub open spec fn copies_in(function: FunctionView, pred: u32) -> Seq<InstructionView> {
    let start = split_state(function);
    let ids = ascending(start.blocks.dom());
    copies_upto(start, ids, pred, ids.len())
}

/// Out of SSA form, a block that another one with phis is entered from ends in
/// copies, before its jump if it has one, and is the same otherwise. The copies
/// act as one parallel assignment: each phi's register comes to hold what its
/// source held before any of them ran, also where that source is the register
/// of another phi, and registers that belong to no such phi are kept. The
/// numbers of new registers have to fit in 32 bits.
pub proof fn law_phis_become_parallel_copies<V>(
    function: FunctionView,
    id: u32,
    pred: u32,
    registers: Map<u32, V>,
    meaning: spec_fn(Immediate) -> V,
)
    requires
        destructed(function) is Some,
        split_state(function).blocks.dom().finite(),
        split_state(function).blocks.contains_key(id),
        split_state(function).blocks.contains_key(pred),
        have_finite_phis(split_state(function).blocks),
        are_apart(split_state(function).blocks, id, pred),
        are_distinct(
            phis_of(split_state(function).blocks[id]),
            pred,
            split_state(function).next,
        ),
        ({
            let start = split_state(function);
            let ids = ascending(start.blocks.dom());
            start.next + total_count(start.blocks, ids, ids.len()) <= u32::MAX
        }),
    ensures
        ({
            let start = split_state(function);
            let phis = phis_of(start.blocks[id]);
            let run = copies_in(function, pred);
            let after = copied(registers, meaning, run);
            &&& destructed(function)->0.blocks.contains_key(pred)
            &&& destructed(function)->0.blocks[pred].instructions == without_phis(
                with_run(start.blocks[pred].instructions, run),
            )
            &&& forall|i: int| 0 <= i < run.len() ==> (#[trigger] run[i]) is Copy
            &&& forall|i: int|
                0 <= i < phis.len() && (#[trigger] phis[i]).sources.contains_key(pred)
                    ==> after[phis[i].destination.0] == held(
                    registers,
                    meaning,
                    phis[i].sources[pred],
                )
            &&& forall|q: u32|
                q < start.next && (forall|other: u32| #[trigger]
                    start.blocks.contains_key(other) ==> !is_filled(
                        start.blocks,
                        other,
                        pred,
                        q,
                    )) ==> (#[trigger] after[q]) == registers[q]
        }),
{
    let start = split_state(function);
    let ids = ascending(start.blocks.dom());
    let n = ids.len();
    lemma_ascending(start.blocks.dom());
    assert(ids.to_set().contains(id));
    let at = ids.index_of(id);
    assert(ids[at] == id);
    lemma_copy(start, ids, n, pred);
    lemma_copy_prefix(start, ids, at as nat + 1, n);
    lemma_total_grows(start.blocks, ids, at as nat, n);
    lemma_total_grows(start.blocks, ids, at as nat + 1, n);
    lemma_copy(start, ids, at as nat, id);
    lemma_finite_phis(start.blocks, ids, at);
    let state = copy_upto(start, ids, at as nat)->0;
    let phis = phis_of(start.blocks[id]);
    let first = copies_upto(start, ids, pred, at as nat);
    let mid = copied(registers, meaning, first);
    let after = copied(registers, meaning, copies_in(function, pred));
    assert(copied(registers, meaning, copies_upto(start, ids, pred, 0)) == registers);
    law_copies_are_parallel(state, phis, pred, mid, meaning);
    lemma_copied(registers, meaning, first, copies_for(state, phis, pred));
    assert forall|i: int|
        0 <= i < phis.len() && (#[trigger] phis[i]).sources.contains_key(
            pred,
        ) implies after[phis[i].destination.0] == held(
        registers,
        meaning,
        phis[i].sources[pred],
    ) by {
        let phi = phis_of(start.blocks[id])[i];
        assert forall|k: int| 0 <= k < n && k != at implies start.blocks.contains_key(
            #[trigger] ids[k],
        ) && ids[k] != id by {
            assert(ids.to_set().contains(ids[k]));
            if k < at {
                assert(ids[k] < ids[at]);
            } else {
                assert(ids[at] < ids[k]);
            }
        }
        assert forall|k: int| 0 <= k < n && k != at implies !is_filled(
            start.blocks,
            #[trigger] ids[k],
            pred,
            phi.destination.0,
        ) by {
            assert(phis_of(start.blocks[id])[i].sources.contains_key(pred));
        }
        lemma_others_keep(
            start,
            ids,
            pred,
            at as nat + 1,
            n,
            registers,
            meaning,
            phi.destination.0,
        );
        if let Operand::Register(from) = phi.sources[pred] {
            assert forall|k: int| 0 <= k < at implies !is_filled(
                start.blocks,
                #[trigger] ids[k],
                pred,
                from.0,
            ) by {
                assert(!is_filled(start.blocks, ids[k], pred, phi.destination.0));
            }
            lemma_others_keep(start, ids, pred, 0, at as nat, registers, meaning, from.0);
        }
    }
    assert forall|q: u32|
        q < start.next && (forall|other: u32| #[trigger]
            start.blocks.contains_key(other) ==> !is_filled(
                start.blocks,
                other,
                pred,
                q,
            )) implies (#[trigger] after[q]) == registers[q] by {
        assert forall|k: int| 0 <= k < n implies !is_filled(
            start.blocks,
            #[trigger] ids[k],
            pred,
            q,
        ) by {
            assert(ids.to_set().contains(ids[k]));
            assert(start.blocks.contains_key(ids[k]));
        }
        lemma_others_keep(start, ids, pred, 0, n, registers, meaning, q);
    }
}

} // verus!
