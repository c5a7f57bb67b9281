//! Lowers the HIR to LIR.

use crate::frontend::intern::{interned, law_intern_idempotent, InternedSymbol, Interner};
use crate::index::{wrap32, Index, IndexVec};
use crate::middle::hir;
use crate::middle::hir::{BodyId, FunctionSignature, ItemKind, LocalDefId};
use crate::middle::lir;
use crate::middle::lir::{
    block_views, extent, fits, register_views, Block, BlockId, BlockView, FunctionDefinition,
    FunctionView, Layout, Register, RegisterId, RegisterView, StaticDefinition, StaticLabelId,
};
use crate::middle::lir::hir_lowering::emit::{
    block_list, lower_type, numbered, register_list, BodyLoweringContext, ExpressionContext,
};
use crate::middle::lir::hir_lowering::flow::{fits_in, is_countable};
use crate::middle::lir::hir_lowering::keeping::{law_function_flows, law_function_numbered};
use crate::middle::lir::hir_lowering::laws::is_numbered;
use crate::middle::lir::hir_lowering::lowered::function_lowered;
use crate::middle::lir::hir_lowering::state::{lowered_ty, with_name, Lowering, Source};
use crate::middle::optimization::pre_ssa::{goes_to, is_linked};
use crate::middle::optimization::OptimizationLevel;
use crate::middle::type_check::{ModuleFindings, ModuleTypeCheckResults};
use std::collections::BTreeMap;
use vstd::prelude::*;

pub mod branching;
pub mod building;
pub mod copies;
pub mod elision;
pub mod emit;
pub mod flow;
pub mod joins;
pub mod keeping;
pub mod laws;
pub mod lowered;
pub mod meaning;
pub mod naming;
pub mod rules;
pub mod state;
pub mod steps;
pub mod turns;
pub mod values;
pub mod visit;

verus! {

broadcast use vstd::std_specs::btree::group_btree_axioms;

/// How a module is lowered.
#[derive(Debug, Clone, Copy, PartialEq, Eq, Structural)]
pub struct LoweringOptions {
    /// Whether structures that do not change are shared instead of copied.
    pub copy_elision: bool,
}

impl LoweringOptions {
    /// The options for a level of optimization: copies are elided from the
    /// first level on.
    pub fn for_level(level: OptimizationLevel) -> (r: LoweringOptions)
        ensures
            r.copy_elision == !(level is Zero),
    {
        LoweringOptions { copy_elision: !matches!(level, OptimizationLevel::Zero) }
    }
}

/// The options without any optimization.
pub open spec fn plain_options() -> LoweringOptions {
    LoweringOptions { copy_elision: false }
}

/// What has been lowered of a module: the functions and static variables by
/// the numbers of their definitions, the strings by those of their labels.
pub struct Lowerings {
    pub names: Seq<Seq<char>>,
    pub next_label: u32,
    pub strings: Map<u32, InternedSymbol>,
    pub functions: Map<u32, FunctionView>,
    pub statics: Map<u32, StaticDefinition>,
}

/// The state at the start of a body.
pub open spec fn fresh(names: Seq<Seq<char>>, done: Lowerings) -> Lowering {
    Lowering {
        names,
        next_label: done.next_label,
        strings: done.strings,
        registers: Seq::empty(),
        locals: Map::empty(),
        operands: Map::empty(),
        struct_return: None,
        arguments: Seq::empty(),
        blocks: Seq::empty(),
        stack: Seq::empty(),
        loops: Seq::empty(),
        dest: None,
        place: false,
    }
}

/// The function that a body was lowered to.
pub open spec fn function_of(st: Lowering, symbol_name: InternedSymbol) -> FunctionView {
    FunctionView {
        symbol_name,
        registers: numbered(st.registers, st.registers.len()),
        struct_return: st.struct_return,
        arguments: st.arguments,
        blocks: numbered(st.blocks, st.blocks.len()),
    }
}

/// An item more. Only functions and static variables come to anything. There
/// is no result where a rule has none.
pub open spec fn owner_lowered(
    module: hir::Module,
    types: ModuleFindings,
    options: LoweringOptions,
    done: Lowerings,
    id: LocalDefId,
) -> Option<Lowerings> {
    if !module.has_owner(id) || !module.owner(id).is_item() {
        None
    } else {
        match module.owner(id).item().kind {
            ItemKind::Function { name, signature, body } => if !name.is_known(done.names) {
                None
            } else {
                match with_name(fresh(done.names, done), name.shown(done.names)) {
                    None => None,
                    Some((named, symbol)) => match function_lowered(
                        Source {
                            module,
                            types,
                            owner: id,
                            local_symbol: symbol,
                            elides_copies: options.copy_elision,
                        },
                        named,
                        signature,
                        body,
                    ) {
                        None => None,
                        Some(st) => Some(
                            Lowerings {
                                names: st.names,
                                next_label: st.next_label,
                                strings: st.strings,
                                functions: done.functions.insert(id.0, function_of(st, symbol)),
                                statics: done.statics,
                            },
                        ),
                    },
                }
            },
            ItemKind::Static { name, ty, .. } => if !types.has(ty.hir_id) {
                None
            } else {
                match lowered_ty(types.at(ty.hir_id)) {
                    None => None,
                    Some(lir) => if !fits(lir) {
                        None
                    } else {
                        Some(
                            Lowerings {
                                statics: done.statics.insert(
                                    id.0,
                                    StaticDefinition {
                                        symbol_name: name.symbol,
                                        layout: Layout {
                                            size: extent(lir).size as usize,
                                            alignment: extent(lir).alignment as usize,
                                        },
                                    },
                                ),
                                ..done
                            },
                        )
                    },
                }
            },
            _ => Some(done),
        }
    }
}

/// The first `n` items of a module, in order.
pub open spec fn owners_lowered(
    module: hir::Module,
    types: ModuleFindings,
    options: LoweringOptions,
    names: Seq<Seq<char>>,
    n: nat,
) -> Option<Lowerings>
    decreases n,
{
    if n == 0 {
        Some(
            Lowerings {
                names,
                next_label: 0,
                strings: Map::empty(),
                functions: Map::empty(),
                statics: Map::empty(),
            },
        )
    } else {
        match owners_lowered(module, types, options, names, (n - 1) as nat) {
            None => None,
            Some(done) => owner_lowered(module, types, options, done, LocalDefId(wrap32(n - 1) as u32)),
        }
    }
}

/// A module with all its items.
pub open spec fn module_lowered(
    module: hir::Module,
    types: ModuleFindings,
    options: LoweringOptions,
    names: Seq<Seq<char>>,
) -> Option<Lowerings> {
    owners_lowered(module, types, options, names, module.owners@.len())
}

proof fn lemma_owners_prefix(
    module: hir::Module,
    types: ModuleFindings,
    options: LoweringOptions,
    names: Seq<Seq<char>>,
    n: nat,
    m: nat,
)
    requires
        n <= m,
        owners_lowered(module, types, options, names, m) is Some,
    ensures
        owners_lowered(module, types, options, names, n) is Some,
    decreases m,
{
    if n < m {
        lemma_owners_prefix(module, types, options, names, n, (m - 1) as nat);
    }
}

/// Interning a text changes nothing about how a path is written.
proof fn lemma_path_kept(path: hir::Path, names: Seq<Seq<char>>, text: Seq<char>)
    requires
        path.is_known(names),
    ensures
        path.is_known(interned(names, text)),
        path.shown(interned(names, text)) == path.shown(names),
        interned(names, text).contains(text),
{
    let after = interned(names, text);
    if !names.contains(text) {
        assert(after[names.len() as int] == text);
    }
    let n = path.segments@.len();
    assert(Seq::new(n, |i: int| after[path.segments@[i].identifier.symbol.0 as int]) =~= Seq::new(
        n,
        |i: int| names[path.segments@[i].identifier.symbol.0 as int],
    )) by {
        assert forall|i: int| 0 <= i < n implies after[(
        #[trigger] path.segments@[i]).identifier.symbol.0 as int]
            == names[path.segments@[i].identifier.symbol.0 as int] by {}
    }
}

/// What the functions of a module are.
pub open spec fn function_views(functions: Map<u32, FunctionDefinition>) -> Map<u32, FunctionView> {
    functions.map_values(|function: FunctionDefinition| function@)
}

/// The registers of a body by number.
fn registers_by_number(list: IndexVec<RegisterId, Register>) -> (r: BTreeMap<u32, Register>)
    ensures
        register_views(r@) == numbered(register_list(list@), list@.len()),
{
    let ghost all = list@;
    let ghost views = register_list(all);
    let mut out: BTreeMap<u32, Register> = BTreeMap::new();
    let ghost mut n: nat = 0;
    assert(register_views(out@) =~= numbered(views, 0));
    let entries = list.into_entries();
    let ghost pairs = entries@;
    for entry in it: entries
        invariant
            it.seq() == pairs,
            n == it.index(),
            views == register_list(all),
            pairs.len() == all.len(),
            forall|i: int|
                0 <= i < pairs.len() ==> (#[trigger] pairs[i]).0.ix() == wrap32(i) && pairs[i].1
                    == all[i],
            register_views(out@) == numbered(views, n),
    {
        let (id, register) = entry;
        proof {
            lir::lemma_register_views_insert(out@, id.0, register);
            assert(pairs[n as int].0.ix() == wrap32(n as int));
            assert(views[n as int] == register@);
            n = n + 1;
        }
        out.insert(id.0, register);
    }
    out
}

/// The blocks of a body by number.
fn blocks_by_number(list: IndexVec<BlockId, Block>) -> (r: BTreeMap<u32, Block>)
    ensures
        block_views(r@) == numbered(block_list(list@), list@.len()),
{
    let ghost all = list@;
    let ghost views = block_list(all);
    let mut out: BTreeMap<u32, Block> = BTreeMap::new();
    let ghost mut n: nat = 0;
    assert(block_views(out@) =~= numbered(views, 0));
    let entries = list.into_entries();
    let ghost pairs = entries@;
    for entry in it: entries
        invariant
            it.seq() == pairs,
            n == it.index(),
            views == block_list(all),
            pairs.len() == all.len(),
            forall|i: int|
                0 <= i < pairs.len() ==> (#[trigger] pairs[i]).0.ix() == wrap32(i) && pairs[i].1
                    == all[i],
            block_views(out@) == numbered(views, n),
    {
        let (id, block) = entry;
        proof {
            lir::lemma_block_views_insert(out@, id.0, block);
            assert(pairs[n as int].0.ix() == wrap32(n as int));
            assert(views[n as int] == block@);
            n = n + 1;
        }
        out.insert(id.0, block);
    }
    out
}

/// What a body leaves behind: its function, and what bodies share.
pub struct BodyOutput {
    pub function: FunctionDefinition,
    pub names: Interner,
    pub next_static_label_id: StaticLabelId,
    pub static_strings: BTreeMap<u32, InternedSymbol>,
}

impl<'hir> BodyLoweringContext<'hir> {
    /// The function that the body was lowered to.
    pub fn into_output(self) -> (r: BodyOutput)
        ensures
            r.function@ == function_of(self@, self.global_symbol_name),
            r.names == self.names,
            r.next_static_label_id == self.next_static_label_id,
            r.static_strings == self.static_strings,
    {
        BodyOutput {
            function: FunctionDefinition {
                symbol_name: self.global_symbol_name,
                registers: registers_by_number(self.register_map),
                struct_return: self.struct_return,
                arguments: self.arguments,
                blocks: blocks_by_number(self.block_map),
            },
            names: self.names,
            next_static_label_id: self.next_static_label_id,
            static_strings: self.static_strings,
        }
    }
}

/// Lowers a function of a module.
fn lower_function(
    module: &hir::Module,
    type_map: &ModuleTypeCheckResults,
    options: LoweringOptions,
    owner_id: LocalDefId,
    names: Interner,
    next_static_label_id: StaticLabelId,
    static_strings: BTreeMap<u32, InternedSymbol>,
) -> (r: BodyOutput)
    requires
        names.well_formed(),
        module.has_owner(owner_id),
        module.owner(owner_id).is_item(),
        module.owner(owner_id).item().kind is Function,
        owner_lowered(
            *module,
            type_map@,
            options,
            shared(names@, next_static_label_id, static_strings@),
            owner_id,
        ) is Some,
    ensures
        r.names.well_formed(),
        ({
            let after = owner_lowered(
                *module,
                type_map@,
                options,
                shared(names@, next_static_label_id, static_strings@),
                owner_id,
            )->0;
            &&& r.names@ == after.names
            &&& r.next_static_label_id.0 == after.next_label
            &&& r.static_strings@ == after.strings
            &&& after.functions == Map::<u32, FunctionView>::empty().insert(
                owner_id.0,
                r.function@,
            )
        }),
{
    let item = match module.get_owner(owner_id).node().as_item() {
        Some(item) => item,
        None => vstd::pervasive::unreached(),
    };
    match &item.kind {
        ItemKind::Function { name, signature, body } => {
            let mut own = names;
            proof {
                lemma_path_kept(*name, names@, name.shown(names@));
                law_intern_idempotent(names@, name.shown(names@));
            }
            let local_symbol_name = name.as_local_symbol(&mut own);
            let global_symbol_name = module.global_symbol_for(name, &mut own);
            let mut ctx = BodyLoweringContext {
                module,
                type_map,
                owner_id,
                local_symbol_name,
                global_symbol_name,
                elides_copies: options.copy_elision,
                names: own,
                next_static_label_id,
                static_strings,
                register_map: IndexVec::new(),
                local_to_register_map: BTreeMap::new(),
                expression_to_operand_map: BTreeMap::new(),
                struct_return: None,
                arguments: Vec::new(),
                block_map: IndexVec::new(),
                block_stack: Vec::new(),
                loop_ctx_stack: Vec::new(),
                destination_register: None,
                expression_context: ExpressionContext::Value,
            };
            proof {
                let (start, _) = with_name(
                    fresh(names@, shared(names@, next_static_label_id, static_strings@)),
                    name.shown(names@),
                )->0;
                assert(ctx@.registers =~= start.registers);
                assert(ctx@.blocks =~= start.blocks);
                assert(ctx@.loops =~= start.loops);
                assert(ctx@.locals =~= start.locals);
                assert(ctx@.operands =~= start.operands);
                assert(ctx@ == start);
            }
            ctx.visit_function_definition(signature, *body);
            ctx.into_output()
        }
        _ => vstd::pervasive::unreached(),
    }
}

/// What bodies share, before anything has come of them.
pub open spec fn shared(
    names: Seq<Seq<char>>,
    next: StaticLabelId,
    strings: Map<u32, InternedSymbol>,
) -> Lowerings {
    Lowerings {
        names,
        next_label: next.0,
        strings,
        functions: Map::empty(),
        statics: Map::empty(),
    }
}

proof fn lemma_function_views_insert(
    functions: Map<u32, FunctionDefinition>,
    id: u32,
    function: FunctionDefinition,
)
    ensures
        function_views(functions.insert(id, function)) == function_views(functions).insert(
            id,
            function@,
        ),
{
    assert(function_views(functions.insert(id, function)) =~= function_views(functions).insert(
        id,
        function@,
    ));
}

/// Whatever came of earlier items, the same comes of an item.
proof fn lemma_owner_apart(
    module: hir::Module,
    types: ModuleFindings,
    options: LoweringOptions,
    done: Lowerings,
    id: LocalDefId,
)
    requires
        module.has_owner(id),
        module.owner(id).is_item(),
        module.owner(id).item().kind is Function,
        owner_lowered(module, types, options, done, id) is Some,
    ensures
        ({
            let alone = owner_lowered(
                module,
                types,
                options,
                shared(done.names, StaticLabelId(done.next_label), done.strings),
                id,
            );
            let after = owner_lowered(module, types, options, done, id)->0;
            &&& alone is Some
            &&& alone->0.names == after.names
            &&& alone->0.next_label == after.next_label
            &&& alone->0.strings == after.strings
            &&& forall|f: FunctionView|
                alone->0.functions == Map::<u32, FunctionView>::empty().insert(id.0, f)
                    ==> after.functions == #[trigger] done.functions.insert(id.0, f)
            &&& after.statics == done.statics
        }),
{
    let alone = owner_lowered(
        module,
        types,
        options,
        shared(done.names, StaticLabelId(done.next_label), done.strings),
        id,
    );
    let after = owner_lowered(module, types, options, done, id)->0;
    assert(fresh(done.names, done) == fresh(
        done.names,
        shared(done.names, StaticLabelId(done.next_label), done.strings),
    ));
    assert forall|f: FunctionView|
        alone->0.functions == Map::<u32, FunctionView>::empty().insert(id.0, f) implies
        after.functions == #[trigger] done.functions.insert(id.0, f) by {
        assert(alone->0.functions[id.0] == f);
    }
}

/// Lowers all the functions and static variables of a module, with nothing
/// optimized.
pub fn lower_to_lir(
    module: &hir::Module,
    type_map: &ModuleTypeCheckResults,
    names: &mut Interner,
) -> (r: lir::Module)
    requires
        old(names).well_formed(),
        module_lowered(*module, type_map@, plain_options(), old(names)@) is Some,
    ensures
        final(names).well_formed(),
        ({
            let lowered = module_lowered(*module, type_map@, plain_options(), old(names)@)->0;
            &&& function_views(r.function_definitions@) == lowered.functions
            &&& r.static_definitions@ == lowered.statics
            &&& r.static_strings@ == lowered.strings
            &&& r.static_c_strings@ == Map::<u32, InternedSymbol>::empty()
            &&& final(names)@ == lowered.names
        }),
{
    lower_with_options(module, type_map, LoweringOptions { copy_elision: false }, names)
}

/// Lowers all the functions and static variables of a module.
pub fn lower_with_options(
    module: &hir::Module,
    type_map: &ModuleTypeCheckResults,
    options: LoweringOptions,
    names: &mut Interner,
) -> (r: lir::Module)
    requires
        old(names).well_formed(),
        module_lowered(*module, type_map@, options, old(names)@) is Some,
    ensures
        final(names).well_formed(),
        ({
            let lowered = module_lowered(*module, type_map@, options, old(names)@)->0;
            &&& function_views(r.function_definitions@) == lowered.functions
            &&& r.static_definitions@ == lowered.statics
            &&& r.static_strings@ == lowered.strings
            &&& r.static_c_strings@ == Map::<u32, InternedSymbol>::empty()
            &&& final(names)@ == lowered.names
        }),
{
    let ghost first = names@;
    let ghost types = type_map@;
    let mut own = Interner::new();
    core::mem::swap(names, &mut own);
    let mut function_definitions: BTreeMap<u32, FunctionDefinition> = BTreeMap::new();
    let mut static_definitions: BTreeMap<u32, StaticDefinition> = BTreeMap::new();
    let mut next_static_label_id = StaticLabelId(0);
    let mut static_strings: BTreeMap<u32, InternedSymbol> = BTreeMap::new();
    let owners = module.get_owners();
    let mut i: usize = 0;
    assert(function_views(function_definitions@) =~= Map::empty());
    assert(static_definitions@ =~= Map::empty());
    assert(static_strings@ =~= Map::empty());
    while i < owners.len()
        invariant
            0 <= i <= owners@.len(),
            owners@.len() == module.owners@.len(),
            forall|i: int| 0 <= i < owners@.len() ==> (#[trigger] owners@[i]).0 as int == wrap32(i),
            types == type_map@,
            own.well_formed(),
            owners_lowered(*module, types, options, first, owners@.len()) is Some,
            owners_lowered(*module, types, options, first, i as nat) == Some(
                (Lowerings {
                    names: own@,
                    next_label: next_static_label_id.0,
                    strings: static_strings@,
                    functions: function_views(function_definitions@),
                    statics: static_definitions@,
                }),
            ),
        decreases owners@.len() - i,
    {
        proof {
            lemma_owners_prefix(*module, types, options, first, i as nat + 1, owners@.len());
            assert(owners@[i as int].0 as int == wrap32(i as int));
        }
        let owner_id = owners[i];
        let item = match module.get_owner(owner_id).node().as_item() {
            Some(item) => item,
            None => vstd::pervasive::unreached(),
        };
        match &item.kind {
            ItemKind::Function { .. } => {
                proof {
                    lemma_owner_apart(
                        *module,
                        types,
                        options,
                        owners_lowered(*module, types, options, first, i as nat)->0,
                        owner_id,
                    );
                }
                let output = lower_function(
                    module,
                    type_map,
                    options,
                    owner_id,
                    own,
                    next_static_label_id,
                    static_strings,
                );
                proof {
                    lemma_function_views_insert(
                        function_definitions@,
                        owner_id.0,
                        output.function,
                    );
                }
                function_definitions.insert(owner_id.0, output.function);
                own = output.names;
                next_static_label_id = output.next_static_label_id;
                static_strings = output.static_strings;
            }
            ItemKind::Static { name, ty, .. } => {
                let ty = type_map.get_type(ty.hir_id);
                let lir_ty = lower_type(ty.kind());
                static_definitions.insert(
                    owner_id.0,
                    StaticDefinition { symbol_name: name.symbol, layout: lir_ty.layout() },
                );
            }
            ItemKind::Struct { .. } | ItemKind::Enum { .. } | ItemKind::TypeAlias { .. } => {}
        }
        i = i + 1;
    }
    core::mem::swap(names, &mut own);
    lir::Module {
        function_definitions,
        static_definitions,
        static_strings,
        static_c_strings: BTreeMap::new(),
    }
}

/// Whether the registers and blocks of a function are found under their own
/// numbers.
pub open spec fn is_keyed(function: FunctionView) -> bool {
    &&& forall|id: u32|
        function.registers.contains_key(id) ==> (#[trigger] function.registers[id]).id.0 == id
    &&& forall|id: u32|
        function.blocks.contains_key(id) ==> (#[trigger] function.blocks[id]).id.0 == id
}

proof fn lemma_keyed_registers(list: Seq<RegisterView>, n: nat)
    requires
        n <= list.len(),
        forall|i: int| 0 <= i < list.len() ==> (#[trigger] list[i]).id.0 as int == wrap32(i),
    ensures
        forall|id: u32|
            numbered(list, n).contains_key(id) ==> (#[trigger] numbered(list, n)[id]).id.0 == id,
    decreases n,
{
    if n > 0 {
        lemma_keyed_registers(list, (n - 1) as nat);
        let before = numbered(list, (n - 1) as nat);
        let key = wrap32(n - 1) as u32;
        assert(numbered(list, n) == before.insert(key, list[n - 1]));
        assert(list[n - 1].id.0 == key);
        assert forall|id: u32| numbered(list, n).contains_key(id) implies (#[trigger] numbered(
            list,
            n,
        )[id]).id.0 == id by {
            if id != key {
                assert(before.contains_key(id) && before[id].id.0 == id);
            }
        }
    }
}

proof fn lemma_keyed_blocks(list: Seq<BlockView>, n: nat)
    requires
        n <= list.len(),
        forall|i: int| 0 <= i < list.len() ==> (#[trigger] list[i]).id.0 as int == wrap32(i),
    ensures
        forall|id: u32|
            numbered(list, n).contains_key(id) ==> (#[trigger] numbered(list, n)[id]).id.0 == id,
    decreases n,
{
    if n > 0 {
        lemma_keyed_blocks(list, (n - 1) as nat);
        let before = numbered(list, (n - 1) as nat);
        let key = wrap32(n - 1) as u32;
        assert(numbered(list, n) == before.insert(key, list[n - 1]));
        assert(list[n - 1].id.0 == key);
        assert forall|id: u32| numbered(list, n).contains_key(id) implies (#[trigger] numbered(
            list,
            n,
        )[id]).id.0 == id by {
            if id != key {
                assert(before.contains_key(id) && before[id].id.0 == id);
            }
        }
    }
}

proof fn lemma_numbered_at<T>(list: Seq<T>, n: nat, k: u32)
    requires
        n <= list.len() <= u32::MAX,
    ensures
        numbered(list, n).contains_key(k) <==> (k as int) < n,
        (k as int) < n ==> numbered(list, n)[k] == list[k as int],
    decreases n,
{
    if n > 0 {
        lemma_numbered_at(list, (n - 1) as nat, k);
    }
}

/// The graph of a function that was lowered is in order: all that is jumped to
/// exists, and knows where it is entered from.
pub proof fn law_function_linked(
    src: Source,
    st: Lowering,
    signature: FunctionSignature,
    body: BodyId,
    symbol: InternedSymbol,
)
    requires
        st.blocks.len() == 0,
        st.loops.len() == 0,
        st.stack.len() == 0,
    ensures
        function_lowered(src, st, signature, body) matches Some(after) ==> (is_countable(after)
            ==> is_linked(function_of(after, symbol).blocks)),
{
    law_function_flows(src, st, signature, body);
    if function_lowered(src, st, signature, body) is Some && is_countable(
        function_lowered(src, st, signature, body)->0,
    ) {
        let after = function_lowered(src, st, signature, body)->0;
        let blocks = function_of(after, symbol).blocks;
        assert forall|k: u32, i: int, t: u32|
            blocks.contains_key(k) && 0 <= i < blocks[k].instructions.len() && goes_to(
                #[trigger] blocks[k].instructions[i],
                t,
            ) implies #[trigger] blocks.contains_key(t) && blocks[t].predecessors.contains(
            k,
        ) by {
            lemma_numbered_at(after.blocks, after.blocks.len(), k);
            lemma_numbered_at(after.blocks, after.blocks.len(), t);
            assert(fits_in(after, k as int, after.blocks[k as int].instructions[i]));
        }
    }
}

proof fn lemma_owner_keyed(
    module: hir::Module,
    types: ModuleFindings,
    options: LoweringOptions,
    done: Lowerings,
    id: LocalDefId,
)
    requires
        forall|k: u32|
            done.functions.contains_key(k) ==> is_keyed(#[trigger] done.functions[k]),
    ensures
        owner_lowered(module, types, options, done, id) matches Some(after) ==> forall|k: u32|
            after.functions.contains_key(k) ==> is_keyed(#[trigger] after.functions[k]),
{
    if owner_lowered(module, types, options, done, id) is Some {
        match module.owner(id).item().kind {
            ItemKind::Function { name, signature, body } => {
                let (named, symbol) = with_name(
                    fresh(done.names, done),
                    name.shown(done.names),
                )->0;
                let src = Source {
                    module,
                    types,
                    owner: id,
                    local_symbol: symbol,
                    elides_copies: options.copy_elision,
                };
                assert(is_numbered(named)) by {
                    reveal(is_numbered);
                }
                law_function_numbered(src, named, signature, body);
                let st = function_lowered(src, named, signature, body)->0;
                reveal(is_numbered);
                lemma_keyed_registers(st.registers, st.registers.len());
                lemma_keyed_blocks(st.blocks, st.blocks.len());
                assert(is_keyed(function_of(st, symbol)));
            },
            _ => {},
        }
    }
}

/// The registers and blocks of all the functions of a lowered module are found
/// under their own numbers.
pub proof fn law_module_keyed(
    module: hir::Module,
    types: ModuleFindings,
    options: LoweringOptions,
    names: Seq<Seq<char>>,
    n: nat,
)
    ensures
        owners_lowered(module, types, options, names, n) matches Some(after) ==> forall|k: u32|
            after.functions.contains_key(k) ==> is_keyed(#[trigger] after.functions[k]),
    decreases n,
{
    if n > 0 {
        law_module_keyed(module, types, options, names, (n - 1) as nat);
        match owners_lowered(module, types, options, names, (n - 1) as nat) {
            Some(done) => lemma_owner_keyed(
                module,
                types,
                options,
                done,
                LocalDefId(wrap32(n - 1) as u32),
            ),
            None => {},
        }
    }
}

} // verus!
