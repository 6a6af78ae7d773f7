//! The part of `wasmtime` that the host stands on.

use vstd::prelude::*;

use crate::exports::lacks_start;
use crate::guest::{
    answer_of, CallerView, InstanceView, LinkerView, ModuleView, StoreView, World,
};
use crate::imports::{all_among, Import, Kind, Value};
use crate::laws::reaches;
use crate::state::{memory_view, HostState, HostTrap, HostView, Reply};

verus! {

/// [`wasmtime::Engine`]: an engine; only which one it is is known of it.
#[verifier::external_type_specification]
#[verifier::external_body]
pub struct ExEngine(wasmtime::Engine);

/// [`wasmtime::Linker`]: what defines imports; see [`linker_view`].
#[verifier::external_type_specification]
#[verifier::external_body]
#[verifier::reject_recursive_types(T)]
pub struct ExLinker<T>(wasmtime::Linker<T>);

/// [`wasmtime::Module`]: a compiled module; see [`module_view`].
#[verifier::external_type_specification]
#[verifier::external_body]
pub struct ExModule(wasmtime::Module);

/// [`wasmtime::Store`]: what holds a guest and the host's state; see [`store_view`].
#[verifier::external_type_specification]
#[verifier::external_body]
#[verifier::reject_recursive_types(T)]
pub struct ExStore<T: 'static>(wasmtime::Store<T>);

/// [`wasmtime::Instance`]: a running module; see [`instance_view`].
#[verifier::external_type_specification]
#[verifier::external_body]
pub struct ExInstance(wasmtime::Instance);

/// [`wasmtime::Caller`]: the caller of an import; see [`caller_view`].
#[verifier::external_type_specification]
#[verifier::external_body]
#[verifier::reject_recursive_types(T)]
pub struct ExCaller<'a, T: 'static>(wasmtime::Caller<'a, T>);

/// [`wasmtime::Val`]: a value of a guest; see [`val_value`].
#[verifier::external_type_specification]
#[verifier::external_body]
pub struct ExVal(wasmtime::Val);

/// [`wasmtime::ValType`]: a type of a guest; see [`type_kind`].
#[verifier::external_type_specification]
#[verifier::external_body]
pub struct ExValType(wasmtime::ValType);

/// [`wasmtime::Error`]: what an engine refuses or stops with; see [`error_text`].
#[verifier::external_type_specification]
#[verifier::external_body]
pub struct ExError(wasmtime::Error);

/// Which engine an engine is.
pub uninterp spec fn engine_id(engine: wasmtime::Engine) -> int;

/// What a linker defines.
pub uninterp spec fn linker_view(linker: wasmtime::Linker<HostState>) -> LinkerView;

/// What a module was compiled from.
pub uninterp spec fn module_view(module: wasmtime::Module) -> ModuleView;

/// What a store holds.
pub uninterp spec fn store_view(store: wasmtime::Store<HostState>) -> StoreView;

/// Where an instance lives.
pub uninterp spec fn instance_view(instance: wasmtime::Instance) -> InstanceView;

/// What a call of an import can reach.
pub uninterp spec fn caller_view(caller: wasmtime::Caller<'_, HostState>) -> CallerView;

/// The value that a [`wasmtime::Val`] stands for, if it is of a type that an
/// import can have.
pub uninterp spec fn val_value(val: wasmtime::Val) -> Option<Value>;

/// The type that a [`wasmtime::ValType`] stands for.
pub uninterp spec fn type_kind(ty: wasmtime::ValType) -> Kind;

/// What a [`wasmtime::Error`] says.
pub uninterp spec fn error_text(error: wasmtime::Error) -> Seq<char>;

/// Whether a [`wasmtime::Error`] is, or was caused by, a [`wasmtime::OutOfMemory`].
pub uninterp spec fn is_out_of_memory(error: wasmtime::Error) -> bool;

/// Whether [`wasmtime::Module::new`] can take bytes for a module.
pub uninterp spec fn compiles(wasm: Seq<u8>) -> bool;

/// What [`wasmtime::Module::imports`] lists of a module: the functions and whatever else it
/// imports, each by module and name.
pub uninterp spec fn imported(wasm: Seq<u8>) -> Set<(Seq<char>, Seq<char>)>;

/// Whether a module exports a function under a name that takes that many 64-bit
/// integers and returns one, as [`wasmtime::Instance::get_typed_func`] finds it.
pub uninterp spec fn exports_function(wasm: Seq<u8>, name: Seq<char>, arity: nat) -> bool;

/// Whether [`wasmtime::Linker::instantiate`], with some imports defined, can start
/// a module so that it leads from a host's state to what host and guest keep then.
pub uninterp spec fn starts(
    wasm: Seq<u8>,
    imports: Set<Import>,
    before: HostView,
    after: World,
) -> bool;

/// Whether [`wasmtime::TypedFunc::call`] of a module's exported function can lead from
/// what host and guest keep to what they keep then, and answer so; it answers nothing
/// if it was stopped.
pub uninterp spec fn runs(
    wasm: Seq<u8>,
    name: Seq<char>,
    args: Seq<i64>,
    before: World,
    after: World,
    answer: Option<i64>,
) -> bool;

/// [`wasmtime::Engine::default`]: an engine.
#[verifier::external_body]
pub(crate) fn new_engine() -> (r: wasmtime::Engine) {
    wasmtime::Engine::default()
}

/// [`wasmtime::Engine::new`] with [`wasmtime::Config::memory_reservation`]: an engine
/// that sets that many bytes of address space aside for a guest's memory. Whether
/// there is one rests on the machine.
#[verifier::external_body]
pub(crate) fn new_engine_reserving(bytes: u64) -> (r: Result<wasmtime::Engine, wasmtime::Error>) {
    wasmtime::Engine::new(wasmtime::Config::new().memory_reservation(bytes))
}

/// [`wasmtime::Linker::new`]: a linker of the engine that defines nothing.
#[verifier::external_body]
pub(crate) fn new_linker(engine: &wasmtime::Engine) -> (r: wasmtime::Linker<HostState>)
    ensures
        linker_view(r) == (LinkerView { engine: engine_id(*engine), imports: Set::empty() }),
{
    wasmtime::Linker::new(engine)
}

/// [`wasmtime::Store::new`]: a store of the engine that holds the state.
#[verifier::external_body]
pub(crate) fn new_store(engine: &wasmtime::Engine, state: HostState) -> (r: wasmtime::Store<
    HostState,
>)
    ensures
        store_view(r).engine == engine_id(*engine),
        store_view(r).state == state,
{
    wasmtime::Store::new(engine, state)
}

/// [`wasmtime::Module::new`]: a module of the engine compiled from the bytes, which are
/// then a module. That it takes every module is not said: compiling also needs memory
/// that the machine may not have.
#[verifier::external_body]
pub(crate) fn new_module(engine: &wasmtime::Engine, wasm: &[u8]) -> (r: Result<
    wasmtime::Module,
    wasmtime::Error,
>)
    ensures
        r is Ok ==> compiles(wasm@),
        r matches Ok(m) ==> module_view(m) == (ModuleView {
            engine: engine_id(*engine),
            wasm: wasm@,
        }),
{
    wasmtime::Module::new(engine, wasm)
}

/// [`wasmtime::Store::data`]: the state that a store holds.
#[verifier::external_body]
pub(crate) fn state(store: &wasmtime::Store<HostState>) -> (r: &HostState)
    ensures
        *r == store_view(*store).state,
{
    store.data()
}

/// [`wasmtime::Store::data_mut`]: the state that a store holds, to be changed.
#[verifier::external_body]
pub(crate) fn state_mut(store: &mut wasmtime::Store<HostState>) -> (r: &mut HostState)
    ensures
        *r == store_view(*old(store)).state,
        store_view(*final(store)) == (StoreView { state: *final(r), ..store_view(*old(store)) }),
{
    store.data_mut()
}

/// The [`wasmtime::ValType`] of a type, one for one.
#[verifier::external_body]
fn val_type(kind: Kind) -> (r: wasmtime::ValType)
    ensures
        type_kind(r) == kind,
{
    match kind {
        Kind::I32 => wasmtime::ValType::I32,
        Kind::I64 => wasmtime::ValType::I64,
        Kind::F32 => wasmtime::ValType::F32,
    }
}

/// The types that a list of [`wasmtime::ValType`]s stands for.
pub open spec fn type_kinds(types: Seq<wasmtime::ValType>) -> Seq<Kind> {
    types.map_values(|t: wasmtime::ValType| type_kind(t))
}

fn val_types(kinds: &Vec<Kind>) -> (r: Vec<wasmtime::ValType>)
    ensures
        type_kinds(r@) == kinds@,
{
    let mut types: Vec<wasmtime::ValType> = Vec::new();
    let mut i: usize = 0;
    while i < kinds.len()
        invariant
            i <= kinds.len(),
            type_kinds(types@) == kinds@.take(i as int),
        decreases kinds.len() - i,
    {
        let t = val_type(kinds[i]);
        assert(type_kinds(types@.push(t)) =~= type_kinds(types@).push(kinds@[i as int]));
        types.push(t);
        i = i + 1;
        assert(kinds@.take(i as int) =~= kinds@.take(i - 1).push(kinds@[i - 1]));
    }
    assert(kinds@.take(i as int) =~= kinds@);
    types
}

/// [`wasmtime::Linker::func_new`], with a [`wasmtime::FuncType`] of the linker's
/// engine: defines an import under its module and name, with its types, so that
/// [`serve`] answers its calls. What is defined is not defined anew; of another
/// import only an allocation that fails is refused.
#[verifier::external_body]
fn define(
    linker: &mut wasmtime::Linker<HostState>,
    import: Import,
    module: &str,
    name: &str,
    params: Vec<wasmtime::ValType>,
    results: Vec<wasmtime::ValType>,
) -> (r: Result<(), wasmtime::Error>)
    requires
        module@ == import.module_text(),
        name@ == import.name_text(),
        type_kinds(params@) == import.param_kinds(),
        type_kinds(results@) == import.result_kinds(),
    ensures
        linker_view(*old(linker)).imports.contains(import) ==> r is Err,
        r matches Err(e) ==> linker_view(*old(linker)).imports.contains(import)
            || is_out_of_memory(e),
        linker_view(*final(linker)) == (if r is Ok {
            LinkerView {
                imports: linker_view(*old(linker)).imports.insert(import),
                ..linker_view(*old(linker))
            }
        } else {
            linker_view(*old(linker))
        }),
{
    let ty = wasmtime::FuncType::new(linker.engine(), params, results);
    linker.func_new(module, name, ty, move |mut caller, args, results| {
        serve(&mut caller, import, args, results)
    })?;
    Ok(())
}

/// Defines imports one after the other, up to the first that is refused.
pub(crate) fn bind(linker: &mut wasmtime::Linker<HostState>, imports: &Vec<Import>) -> (r: Result<
    (),
    wasmtime::Error,
>)
    ensures
        linker_view(*final(linker)).engine == linker_view(*old(linker)).engine,
        r is Ok ==> linker_view(*final(linker)).imports == linker_view(*old(linker)).imports.union(
            imports@.to_set(),
        ),
        r is Ok ==> linker_view(*old(linker)).imports.disjoint(imports@.to_set()),
        r matches Err(e) ==> is_out_of_memory(e) || !imports@.no_duplicates()
            || !linker_view(*old(linker)).imports.disjoint(imports@.to_set()),
        linker_view(*old(linker)).imports.subset_of(linker_view(*final(linker)).imports),
        linker_view(*final(linker)).imports.subset_of(
            linker_view(*old(linker)).imports.union(imports@.to_set()),
        ),
{
    let ghost start = linker_view(*linker);
    let mut i: usize = 0;
    while i < imports.len()
        invariant
            start == linker_view(*old(linker)),
            i <= imports.len(),
            linker_view(*linker).engine == start.engine,
            forall|k: int| 0 <= k < i ==> !start.imports.contains(#[trigger] imports@[k]),
            linker_view(*linker).imports == start.imports.union(imports@.take(i as int).to_set()),
        decreases imports.len() - i,
    {
        let import: Import = imports[i];
        let params: Vec<wasmtime::ValType> = val_types(&import.params());
        let results: Vec<wasmtime::ValType> = val_types(&import.results());
        proof {
            assert(imports@.take(i + 1) =~= imports@.take(i as int).push(import));
            imports@.take(i as int).lemma_push_to_set_commute(import);
            assert forall|x: Import| imports@.take(i as int).contains(x) implies imports@.contains(
                x,
            ) by {
                let k = choose|k: int| 0 <= k < i && imports@.take(i as int)[k] == x;
                assert(imports@[k] == x);
            }
        }
        match define(linker, import, import.module(), import.name(), params, results) {
            Ok(()) => {},
            Err(e) => {
                return Err(e);
            },
        }
        i = i + 1;
    }
    assert(imports@.take(i as int) =~= imports@);
    Ok(())
}

/// [`wasmtime::Linker::instantiate`]: starts a module in a store, all of one engine.
/// The start function may call what the linker defines, and nothing else touches
/// the host's state: a module without a start function leaves it as it was. A module
/// that imports what the linker does not define is refused; whether another is taken
/// rests on the module and the machine.
#[verifier::external_body]
pub(crate) fn instantiate(
    linker: &wasmtime::Linker<HostState>,
    store: &mut wasmtime::Store<HostState>,
    module: &wasmtime::Module,
) -> (r: Result<wasmtime::Instance, wasmtime::Error>)
    requires
        linker_view(*linker).engine == store_view(*old(store)).engine,
        linker_view(*linker).engine == module_view(*module).engine,
    ensures
        store_view(*final(store)).engine == store_view(*old(store)).engine,
        store_view(*final(store)).id == store_view(*old(store)).id,
        reaches(store_view(*old(store)).state@, store_view(*final(store)).state@),
        r is Ok ==> all_among(
            imported(module_view(*module).wasm),
            linker_view(*linker).imports,
        ),
        r matches Ok(i) ==> {
            &&& instance_view(i).store == store_view(*old(store)).id
            &&& instance_view(i).wasm == module_view(*module).wasm
            &&& starts(
                module_view(*module).wasm,
                linker_view(*linker).imports,
                store_view(*old(store)).state@,
                store_view(*final(store)).world(),
            )
            &&& lacks_start(module_view(*module).wasm) ==> store_view(*final(store)).state
                == store_view(*old(store)).state
        },
{
    linker.instantiate(store, module)
}

/// [`wasmtime::Instance::get_typed_func`] and [`wasmtime::TypedFunc::call`]: runs an
/// exported function without arguments, if there is one of that type. It may call
/// the imports, and nothing else touches the host's state. A function that runs
/// forever keeps this from returning.
#[verifier::external_body]
pub(crate) fn run0(
    store: &mut wasmtime::Store<HostState>,
    instance: &wasmtime::Instance,
    name: &str,
) -> (r: Option<Result<i64, wasmtime::Error>>)
    requires
        instance_view(*instance).store == store_view(*old(store)).id,
    ensures
        r is Some <==> exports_function(instance_view(*instance).wasm, name@, 0),
        r is None ==> store_view(*final(store)) == store_view(*old(store)),
        store_view(*final(store)).engine == store_view(*old(store)).engine,
        store_view(*final(store)).id == store_view(*old(store)).id,
        reaches(store_view(*old(store)).state@, store_view(*final(store)).state@),
        r matches Some(a) ==> runs(
            instance_view(*instance).wasm,
            name@,
            Seq::empty(),
            store_view(*old(store)).world(),
            store_view(*final(store)).world(),
            answer_of(a),
        ),
{
    match instance.get_typed_func::<(), i64>(&mut *store, name) {
        Ok(f) => Some(f.call(store, ())),
        Err(_) => None,
    }
}

/// [`wasmtime::Instance::get_typed_func`] and [`wasmtime::TypedFunc::call`]: runs an
/// exported function with one argument, if there is one of that type. It may call
/// the imports, and nothing else touches the host's state. A function that runs
/// forever keeps this from returning.
#[verifier::external_body]
pub(crate) fn run1(
    store: &mut wasmtime::Store<HostState>,
    instance: &wasmtime::Instance,
    name: &str,
    arg: i64,
) -> (r: Option<Result<i64, wasmtime::Error>>)
    requires
        instance_view(*instance).store == store_view(*old(store)).id,
    ensures
        r is Some <==> exports_function(instance_view(*instance).wasm, name@, 1),
        r is None ==> store_view(*final(store)) == store_view(*old(store)),
        store_view(*final(store)).engine == store_view(*old(store)).engine,
        store_view(*final(store)).id == store_view(*old(store)).id,
        reaches(store_view(*old(store)).state@, store_view(*final(store)).state@),
        r matches Some(a) ==> runs(
            instance_view(*instance).wasm,
            name@,
            seq![arg],
            store_view(*old(store)).world(),
            store_view(*final(store)).world(),
            answer_of(a),
        ),
{
    match instance.get_typed_func::<i64, i64>(&mut *store, name) {
        Ok(f) => Some(f.call(store, arg)),
        Err(_) => None,
    }
}

/// The variants of [`wasmtime::Val`] that an import's argument can be of, one for one.
#[verifier::external_body]
fn from_val(val: &wasmtime::Val) -> (r: Option<Value>)
    ensures
        r == val_value(*val),
{
    match val {
        wasmtime::Val::I32(x) => Some(Value::I32(*x)),
        wasmtime::Val::I64(x) => Some(Value::I64(*x)),
        wasmtime::Val::F32(x) => Some(Value::F32(*x)),
        _ => None,
    }
}

/// The [`wasmtime::Val`] of a value.
#[verifier::external_body]
fn to_val(value: Value) -> (r: wasmtime::Val)
    ensures
        val_value(r) == Some(value),
{
    match value {
        Value::I32(x) => wasmtime::Val::I32(x),
        Value::I64(x) => wasmtime::Val::I64(x),
        Value::F32(x) => wasmtime::Val::F32(x),
    }
}

/// [`wasmtime::Error::msg`]: an error that says `text`.
#[verifier::external_body]
fn trap_error(text: &'static str) -> (r: wasmtime::Error)
    ensures
        error_text(r) == text@,
{
    wasmtime::Error::msg(text)
}

/// [`wasmtime::Error`] as it prints itself.
#[verifier::external_body]
pub(crate) fn describe(error: &wasmtime::Error) -> (r: String)
    ensures
        r@ == error_text(*error),
{
    format!("{}", error)
}

/// [`wasmtime::Error::is`] of [`wasmtime::OutOfMemory`]: whether an allocation that
/// failed is in the error or among its causes.
#[verifier::external_body]
pub(crate) fn ran_out_of_memory(error: &wasmtime::Error) -> (r: bool)
    ensures
        r == is_out_of_memory(*error),
{
    error.is::<wasmtime::OutOfMemory>()
}

/// [`wasmtime::Caller::get_export`] and [`wasmtime::Memory::data_and_store_mut`]: the bytes
/// of the guest's memory, if it exports one under the name, and the host's state.
#[verifier::external_body]
fn caller_parts<'a>(caller: &'a mut wasmtime::Caller<'_, HostState>, name: &str) -> (r: (
    Option<&'a [u8]>,
    &'a mut HostState,
))
    ensures
        memory_view(r.0) == caller_view(*old(caller)).memory(name@),
        *r.1 == caller_view(*old(caller)).state,
        caller_view(*final(caller)).state == *final(r.1),
{
    match caller.get_export(name).and_then(wasmtime::Extern::into_memory) {
        Some(m) => {
            let (data, state) = m.data_and_store_mut(caller);
            (Some(data), state)
        },
        None => (None, caller.data_mut()),
    }
}

/// The values of the arguments, if all are of types that an import can have.
pub open spec fn arg_values(args: Seq<wasmtime::Val>) -> Option<Seq<Value>> {
    if forall|i: int| 0 <= i < args.len() ==> val_value(#[trigger] args[i]) is Some {
        Some(Seq::new(args.len(), |i: int| val_value(args[i])->0))
    } else {
        None
    }
}

/// The values of the arguments, if all are of types that an import can have.
fn read_args(args: &[wasmtime::Val]) -> (r: Option<Vec<Value>>)
    ensures
        r matches Some(v) ==> arg_values(args@) == Some(v@),
        r is None ==> arg_values(args@) is None,
{
    let mut values: Vec<Value> = Vec::new();
    let mut i: usize = 0;
    while i < args.len()
        invariant
            i <= args.len(),
            values.len() == i,
            forall|k: int|
                0 <= k < i ==> val_value(#[trigger] args@[k]) == Some(values@[k]),
        decreases args.len() - i,
    {
        match from_val(&args[i]) {
            Some(v) => values.push(v),
            None => {
                assert(val_value(args@[i as int]) is None);
                return None;
            },
        }
        i = i + 1;
    }
    assert(values@ =~= Seq::new(args@.len(), |k: int| val_value(args@[k])->0));
    Some(values)
}

/// Whether the answer to a call stands first among the results and nothing else
/// has changed there.
pub open spec fn holds_answer(
    before: Seq<wasmtime::Val>,
    after: Seq<wasmtime::Val>,
    reply: Reply,
) -> bool {
    match reply {
        Ok(Some(v)) if before.len() > 0 => {
            &&& val_value(after[0]) == Some(v)
            &&& after == before.update(0, after[0])
        },
        _ => after == before,
    }
}

/// Puts the answer to a call where the engine looks for it.
fn put_answer(reply: Reply, results: &mut [wasmtime::Val]) -> (r: Result<(), wasmtime::Error>)
    ensures
        match reply {
            Ok(_) => r is Ok,
            Err(trap) => r matches Err(e) && error_text(e) == trap.text_spec(),
        },
        holds_answer(old(results)@, final(results)@, reply),
{
    match reply {
        Ok(Some(v)) => {
            if results.len() > 0 {
                results[0] = to_val(v);
            }
            Ok(())
        },
        Ok(None) => Ok(()),
        Err(trap) => Err(trap_error(trap.text())),
    }
}

/// Answers a call of an import.
pub(crate) fn serve(
    caller: &mut wasmtime::Caller<'_, HostState>,
    import: Import,
    args: &[wasmtime::Val],
    results: &mut [wasmtime::Val],
) -> (r: Result<(), wasmtime::Error>)
    ensures
        ({
            let before = caller_view(*old(caller)).state@;
            let after = caller_view(*final(caller)).state@;
            match arg_values(args@) {
                Some(values) => {
                    let (next, reply) = before.answer(
                        caller_view(*old(caller)).memory("memory"@),
                        import,
                        values,
                    );
                    &&& after == next
                    &&& match reply {
                        Ok(_) => r is Ok,
                        Err(trap) => r matches Err(e) && error_text(e) == trap.text_spec(),
                    }
                    &&& holds_answer(old(results)@, final(results)@, reply)
                },
                None => {
                    &&& after == before
                    &&& r matches Err(e) && error_text(e) == HostTrap::BadArguments.text_spec()
                    &&& final(results)@ == old(results)@
                },
            }
        }),
{
    let (memory, state) = caller_parts(caller, "memory");
    match read_args(args) {
        Some(values) => put_answer(state.answer(memory, import, values.as_slice()), results),
        None => Err(trap_error(HostTrap::BadArguments.text())),
    }
}

} // verus!
