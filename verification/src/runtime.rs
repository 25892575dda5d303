//! The engine calls that the loader makes: compiling and instantiating a
//! module, looking up its exports, calling functions, and reading and writing
//! linear memory. Each is a thin wrapper over `wasmtime`; what a call returns
//! mostly depends on the module's own code and on the state of the store, so
//! most of these promise nothing about their result beyond its shape.
//!
//! Every wasmtime handle (`Instance`, `Memory`, `Func`, `Global`) panics when it
//! is used with a store that does not own it, and instantiation panics when the
//! store's engine is not the linker's. So the store never travels apart from
//! what it owns: a [`ModuleInstance`] holds a store together with the instance
//! created in it, and is only made by [`instantiate_module`], which makes the
//! store from the linker's own engine and instantiates through
//! `Linker::instantiate_pre`, where a linker item that belongs to another
//! store is reported as an error. An export looked up in a module instance
//! comes back as an [`ExportFunc`], [`ExportMemory`] or [`ExportGlobal`] that
//! records the instance it was looked up in, and the operations on such a
//! handle require that it be used with that module instance. An `Instance`
//! value names its store (wasmtime keeps the store's unique id in it), and a
//! store cannot be shared between two module instances, so two module
//! instances with equal instances are the same.
//!
//! Each module instance also carries a ghost record of what the library did
//! with it ([`Event`]): every export call with the name the function was
//! looked up by, the core values passed and what came back, every read of a
//! global, and every write to and read of a memory. The record is kept by the
//! verified functions `run_func`, `read_global`, `write_memory` and
//! `read_memory` around the wrappers, and lookups leave it as it was.
use vstd::prelude::*;
use wasmtime::{Error, Func, Global, Instance, Linker, Memory, Module, Store, Val, ValType};
use crate::abi::{CoreType, RawVal};
use crate::abi::RawVal::{F32, F64, I32, I64, Other};
use crate::loader::names_view;

verus! {

#[verifier::external_type_specification]
#[verifier::external_body]
pub struct ExError(Error);

#[verifier::external_type_specification]
#[verifier::external_body]
pub struct ExInstance(Instance);

#[verifier::external_type_specification]
#[verifier::external_body]
pub struct ExMemory(Memory);

#[verifier::external_type_specification]
#[verifier::external_body]
pub struct ExFunc(Func);

#[verifier::external_type_specification]
#[verifier::external_body]
pub struct ExGlobal(Global);

#[verifier::external_type_specification]
#[verifier::external_body]
#[verifier::reject_recursive_types(T)]
pub struct ExStore<T: 'static>(Store<T>);

#[verifier::external_type_specification]
#[verifier::external_body]
#[verifier::reject_recursive_types(T)]
pub struct ExLinker<T>(Linker<T>);

/// What happened to a module instance, as the library records it: each export
/// call with its name, the core values passed, the number of result slots it
/// was given and what came back (`None` when the engine reported a failure), each read of a global, and each write to
/// and read of a memory, with the names the exports were looked up under.
pub enum Event {
    Call { func: Seq<char>, args: Seq<RawVal>, slots: nat, results: Option<Seq<RawVal>> },
    GlobalRead { global: Seq<char>, value: RawVal },
    MemWrite { memory: Seq<char>, offset: int, bytes: Seq<u8>, done: bool },
    MemRead { memory: Seq<char>, bytes: Seq<u8> },
}

/// A store together with the instance that was created in it, and the record
/// of what the library has done with it.
pub struct ModuleInstance {
    store: Store<()>,
    instance: Instance,
    log: Ghost<Seq<Event>>,
}

impl ModuleInstance {
    /// The instance this module instance holds; it identifies its store.
    pub closed spec fn id(&self) -> Instance {
        self.instance
    }

    /// The calls, global reads and memory accesses made so far, in order.
    pub closed spec fn log(&self) -> Seq<Event> {
        self.log@
    }
}

/// An exported function, with the instance and the name it was looked up by.
pub struct ExportFunc {
    func: Func,
    owner: Instance,
    name: Ghost<Seq<char>>,
}

/// An exported memory, with the instance and the name it was looked up by.
pub struct ExportMemory {
    memory: Memory,
    owner: Instance,
    name: Ghost<Seq<char>>,
}

/// An exported global, with the instance and the name it was looked up by.
pub struct ExportGlobal {
    global: Global,
    owner: Instance,
    name: Ghost<Seq<char>>,
}

impl ExportFunc {
    pub closed spec fn owner(&self) -> Instance {
        self.owner
    }

    pub closed spec fn name(&self) -> Seq<char> {
        self.name@
    }
}

impl ExportMemory {
    pub closed spec fn owner(&self) -> Instance {
        self.owner
    }

    pub closed spec fn name(&self) -> Seq<char> {
        self.name@
    }
}

impl ExportGlobal {
    pub closed spec fn owner(&self) -> Instance {
        self.owner
    }

    pub closed spec fn name(&self) -> Seq<char> {
        self.name@
    }
}

/// Why instantiating failed: the bytes did not compile, or the compiled
/// module could not be instantiated (an import could not be resolved or comes
/// from another store, or its start function trapped).
pub enum InstantiateFailure {
    Compile(Error),
    Instantiate(Error),
}

/// The names of the exports of the module that `bytes` (binary or text)
/// compile to, in the order the module declares them. They are read from the
/// module's export section, so they depend on the bytes alone.
pub uninterp spec fn export_names_of(bytes: Seq<u8>) -> Seq<Seq<char>>;

/// `Module::new`, `Module::exports`, `Store::new`, `Linker::instantiate_pre`
/// and `InstancePre::instantiate`: compiles `bytes` for the linker's engine,
/// makes a fresh store on that engine, and instantiates the module in it,
/// resolving its imports through the linker (an import that belongs to another
/// store is an error there, not a panic). Whether each step succeeds depends on
/// the engine's configuration, the linker's items and the module's start
/// function, so that is not stated; on success the export names are those of
/// the compiled bytes, and nothing is recorded yet.
#[verifier::external_body]
pub(crate) fn instantiate_module(linker: &Linker<()>, bytes: &[u8]) -> (r: Result<
    (ModuleInstance, Vec<String>),
    InstantiateFailure,
>)
    ensures
        r matches Ok((m, names)) ==> names_view(names@) == export_names_of(bytes@),
        r matches Ok((m, names)) ==> m.log().len() == 0,
{
    let module = Module::new(linker.engine(), bytes).map_err(InstantiateFailure::Compile)?;
    let names = module.exports().map(|e| e.name().to_string()).collect();
    let mut store = Store::new(linker.engine(), ());
    let pre = linker.instantiate_pre(&module).map_err(InstantiateFailure::Instantiate)?;
    let instance = pre.instantiate(&mut store).map_err(InstantiateFailure::Instantiate)?;
    Ok((ModuleInstance { store, instance, log: Ghost(Seq::empty()) }, names))
}

/// `Error`'s `Display`: the message of an engine error. Nothing is stated of
/// it.
#[verifier::external_body]
pub(crate) fn error_message(e: &Error) -> String {
    e.to_string()
}

/// `Instance::get_memory`: the memory exported under `name`, if there is one.
/// Nothing is stated of which; the lookup runs no code of the module.
#[verifier::external_body]
pub(crate) fn get_memory(m: &mut ModuleInstance, name: &str) -> (r: Option<ExportMemory>)
    ensures
        r matches Some(x) ==> x.owner() == old(m).id() && x.name() == name@,
        final(m).id() == old(m).id(),
        final(m).log() == old(m).log(),
{
    match m.instance.get_memory(&mut m.store, name) {
        Some(memory) => Some(ExportMemory { memory, owner: m.instance, name: Ghost(name@) }),
        None => None,
    }
}

/// `Instance::get_func`: the function exported under `name`, if there is one.
/// Nothing is stated of which; the lookup runs no code of the module.
#[verifier::external_body]
pub(crate) fn get_func(m: &mut ModuleInstance, name: &str) -> (r: Option<ExportFunc>)
    ensures
        r matches Some(x) ==> x.owner() == old(m).id() && x.name() == name@,
        final(m).id() == old(m).id(),
        final(m).log() == old(m).log(),
{
    match m.instance.get_func(&mut m.store, name) {
        Some(func) => Some(ExportFunc { func, owner: m.instance, name: Ghost(name@) }),
        None => None,
    }
}

/// `Instance::get_global`: the global exported under `name`, if there is one.
/// Nothing is stated of which; the lookup runs no code of the module.
#[verifier::external_body]
pub(crate) fn get_global(m: &mut ModuleInstance, name: &str) -> (r: Option<ExportGlobal>)
    ensures
        r matches Some(x) ==> x.owner() == old(m).id() && x.name() == name@,
        final(m).id() == old(m).id(),
        final(m).log() == old(m).log(),
{
    match m.instance.get_global(&mut m.store, name) {
        Some(global) => Some(ExportGlobal { global, owner: m.instance, name: Ghost(name@) }),
        None => None,
    }
}

/// `Global::get`: the current value of a global, as a number value or `Other`
/// for a reference or vector value. It depends on the store's state, so
/// nothing is stated of it.
#[verifier::external_body]
fn global_get(m: &mut ModuleInstance, g: &ExportGlobal) -> (r: RawVal)
    requires
        g.owner() == old(m).id(),
    ensures
        final(m).id() == old(m).id(),
        final(m).log() == old(m).log(),
{
    match g.global.get(&mut m.store) {
        Val::I32(v) => I32(v),
        Val::I64(v) => I64(v),
        Val::F32(v) => F32(v),
        Val::F64(v) => F64(v),
        _ => Other,
    }
}

/// Reads a global of the module (see `global_get`), and records the read.
pub(crate) fn read_global(m: &mut ModuleInstance, g: &ExportGlobal) -> (r: RawVal)
    requires
        g.owner() == old(m).id(),
    ensures
        final(m).id() == old(m).id(),
        final(m).log() == old(m).log().push(Event::GlobalRead { global: g.name(), value: r }),
{
    let r = global_get(m, g);
    m.log = Ghost(m.log@.push(Event::GlobalRead { global: g.name@, value: r }));
    r
}

/// `Func::call`: runs the function on `args` with a result buffer of
/// `n_results` slots. Wasmtime checks the arguments and the buffer against the
/// function's type and fails otherwise, so on success exactly `n_results`
/// values come back; what they are is up to the function. The call need not
/// return at all if the function does not.
#[verifier::external_body]
fn func_call(m: &mut ModuleInstance, f: &ExportFunc, args: &[RawVal], n_results: usize) -> (r: Result<
    Vec<RawVal>,
    Error,
>)
    requires
        f.owner() == old(m).id(),
        forall|k: int| 0 <= k < args@.len() ==> !(#[trigger] args@[k] is Other),
    ensures
        r matches Ok(v) ==> v@.len() == n_results,
        final(m).id() == old(m).id(),
        final(m).log() == old(m).log(),
{
    let params: Vec<Val> = args.iter().map(|a| match *a {
        I32(v) => Val::I32(v), I64(v) => Val::I64(v), F32(v) => Val::F32(v),
        F64(v) => Val::F64(v), Other => Val::I32(0)
    }).collect();
    let mut results = vec![Val::I32(0); n_results];
    f.func.call(&mut m.store, &params, &mut results)?;
    Ok(results.into_iter().map(|v| match v {
        Val::I32(x) => I32(x), Val::I64(x) => I64(x), Val::F32(x) => F32(x),
        Val::F64(x) => F64(x), _ => Other
    }).collect())
}

/// The record of a call of `f` with `args` and `slots` result slots that came
/// back with `r`.
pub open spec fn call_event(f: Seq<char>, args: Seq<RawVal>, slots: nat, r: Result<Vec<RawVal>, Error>) -> Event {
    Event::Call {
        func: f,
        args,
        slots,
        results: match r {
            Ok(v) => Some(v@),
            Err(_) => None,
        },
    }
}

/// Runs an exported function of the module (see `func_call`), and records the
/// call.
pub(crate) fn run_func(m: &mut ModuleInstance, f: &ExportFunc, args: &[RawVal], n_results: usize) -> (r: Result<
    Vec<RawVal>,
    Error,
>)
    requires
        f.owner() == old(m).id(),
        forall|k: int| 0 <= k < args@.len() ==> !(#[trigger] args@[k] is Other),
    ensures
        r matches Ok(v) ==> v@.len() == n_results,
        final(m).id() == old(m).id(),
        final(m).log() == old(m).log().push(call_event(f.name(), args@, n_results as nat, r)),
{
    let r = func_call(m, f, args, n_results);
    m.log = Ghost(m.log@.push(call_event(f.name@, args@, n_results as nat, r)));
    r
}

/// `Func::ty(..).results().len()`: how many results the function's type has.
/// Nothing is stated of it.
#[verifier::external_body]
pub(crate) fn func_result_count(m: &ModuleInstance, f: &ExportFunc) -> usize
    requires
        f.owner() == m.id(),
{
    f.func.ty(&m.store).results().len()
}

/// `Func::ty`: the parameter and result types of the function, as core number
/// types, or `None` when one of them is not a number type. Nothing is stated
/// of them.
#[verifier::external_body]
pub(crate) fn func_signature(m: &ModuleInstance, f: &ExportFunc) -> Option<(Vec<CoreType>, Vec<CoreType>)>
    requires
        f.owner() == m.id(),
{
    let conv = |t: ValType| match t {
        ValType::I32 => Some(CoreType::I32), ValType::I64 => Some(CoreType::I64),
        ValType::F32 => Some(CoreType::F32), ValType::F64 => Some(CoreType::F64), _ => None,
    };
    let ty = f.func.ty(&m.store);
    let params: Option<Vec<CoreType>> = ty.params().map(conv).collect();
    let results: Option<Vec<CoreType>> = ty.results().map(conv).collect();
    Some((params?, results?))
}

/// `Memory::write`: copies `bytes` into the memory at `offset`, and tells
/// whether it did; it writes nothing when the range does not fit. The memory's
/// size is store state, so when it fits is not stated.
#[verifier::external_body]
fn memory_write(m: &mut ModuleInstance, mem: &ExportMemory, offset: usize, bytes: &[u8]) -> (r: bool)
    requires
        mem.owner() == old(m).id(),
    ensures
        final(m).id() == old(m).id(),
        final(m).log() == old(m).log(),
{
    mem.memory.write(&mut m.store, offset, bytes).is_ok()
}

/// Writes `bytes` into a memory of the module at `offset` (see
/// `memory_write`), and records the write and whether it was done.
pub(crate) fn write_memory(m: &mut ModuleInstance, mem: &ExportMemory, offset: usize, bytes: &[u8]) -> (r: bool)
    requires
        mem.owner() == old(m).id(),
    ensures
        final(m).id() == old(m).id(),
        final(m).log() == old(m).log().push(
            Event::MemWrite { memory: mem.name(), offset: offset as int, bytes: bytes@, done: r },
        ),
{
    let r = memory_write(m, mem, offset, bytes);
    m.log = Ghost(m.log@.push(Event::MemWrite { memory: mem.name@, offset: offset as int, bytes: bytes@, done: r }));
    r
}

/// `Memory::data`, copied: the whole current contents of the memory. They are
/// store state, so nothing is stated of them.
#[verifier::external_body]
fn memory_bytes(m: &ModuleInstance, mem: &ExportMemory) -> Vec<u8>
    requires
        mem.owner() == m.id(),
{
    mem.memory.data(&m.store).to_vec()
}

/// Reads the whole contents of a memory of the module (see `memory_bytes`),
/// and records the read.
pub(crate) fn read_memory(m: &mut ModuleInstance, mem: &ExportMemory) -> (r: Vec<u8>)
    requires
        mem.owner() == old(m).id(),
    ensures
        final(m).id() == old(m).id(),
        final(m).log() == old(m).log().push(Event::MemRead { memory: mem.name(), bytes: r@ }),
{
    let r = memory_bytes(m, mem);
    m.log = Ghost(m.log@.push(Event::MemRead { memory: mem.name@, bytes: r@ }));
    r
}

} // verus!
