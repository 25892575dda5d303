//! Conversion between WIT-typed values and core WebAssembly values (the ABI).
//!
//! A WIT `string` travels as a pointer and a byte length into the module's
//! linear memory; `bool` travels as an `i32`; the number types travel as
//! themselves. Floating-point values are carried as their IEEE-754 bit
//! patterns, as wasmtime itself carries them.
use vstd::prelude::*;
use vstd::slice::{slice_subrange, slice_to_vec};
use vstd::utf8::{decode_utf8, encode_utf8, valid_utf8};
use crate::wit_parser::{WitFunc, WitFuncView, WitParam, WitParamView, WitType};
use crate::runtime::{
    error_message, func_result_count, func_signature, get_func, get_global, get_memory, read_global, read_memory,
    run_func, write_memory, Event, ExportFunc, ExportMemory, ModuleInstance,
};

verus! {

/// A core WebAssembly number value, as wasmtime passes it: floats as their
/// bit patterns. `Other` stands for the vector and reference values, which the
/// WIT types here never use.
#[derive(Clone, Copy, Debug, PartialEq, Eq, Structural)]
pub enum RawVal {
    I32(i32),
    I64(i64),
    F32(u32),
    F64(u64),
    Other,
}

/// A core WebAssembly number type.
#[derive(Clone, Copy, Debug, PartialEq, Eq, Structural)]
pub enum CoreType {
    I32,
    I64,
    F32,
    F64,
}

/// A dynamically-typed WASM value converted by the ABI. `F32` and
/// `F64` hold the bit patterns of the floats.
#[derive(Debug, Clone, PartialEq)]
pub enum WasmVal {
    I32(i32),
    I64(i64),
    F32(u32),
    F64(u64),
    Bool(bool),
    Str(String),
    Void,
}

/// The mathematical content of a [`WasmVal`].
pub enum WasmValue {
    I32(i32),
    I64(i64),
    F32(u32),
    F64(u64),
    Bool(bool),
    Str(Seq<char>),
    Void,
}

impl View for WasmVal {
    type V = WasmValue;

    open spec fn view(&self) -> WasmValue {
        match self {
            WasmVal::I32(v) => WasmValue::I32(*v),
            WasmVal::I64(v) => WasmValue::I64(*v),
            WasmVal::F32(v) => WasmValue::F32(*v),
            WasmVal::F64(v) => WasmValue::F64(*v),
            WasmVal::Bool(b) => WasmValue::Bool(*b),
            WasmVal::Str(s) => WasmValue::Str(s@),
            WasmVal::Void => WasmValue::Void,
        }
    }
}

pub open spec fn values_view(vs: Seq<WasmVal>) -> Seq<WasmValue> {
    vs.map_values(|v: WasmVal| v@)
}

/// Why an ABI conversion or a call failed.
#[derive(Debug, Clone, PartialEq, Eq)]
pub enum AbiError {
    /// The module exports no memory named `memory`.
    NoMemoryExport,
    /// The module exports no function under this (camelCase) name.
    ExportNotFound(String),
    /// Without WIT: the module exports no function under this name.
    RawExportNotFound(String),
    /// The module does not export `__malloc`.
    MallocNotExported,
    /// The module does not export `cabi_realloc`.
    CabiReallocNotExported,
    /// An allocator returned something other than an `i32` pointer.
    AllocatorResult,
    /// An argument is not of the parameter's WIT type.
    ArgTypeMismatch(WitType),
    /// A string read (pointer, length) falls outside the memory.
    StringOutOfBounds(u32, u32),
    /// A string written to memory (pointer, length) does not fit there.
    StringWriteOutOfBounds(i32, usize),
    /// The bytes of a string are not UTF-8.
    InvalidUtf8,
    /// A global that the string-return convention needs is missing.
    GlobalNotFound(String),
    /// A global holds something other than an `i32`.
    GlobalNotI32(String),
    /// The return area of a Canonical-ABI string result lies outside memory.
    ReturnAreaOutOfBounds(i32),
    /// A function returned a value of another type than its WIT result.
    ResultTypeMismatch,
    /// Without WIT, strings and `Void` cannot be passed.
    StringsNeedWit,
    /// The engine reported a failure (a trap, an arity or type mismatch).
    Call(String),
    /// The WIT declares no export with this snake_case name.
    NoWitExport(String),
}

impl WasmVal {
    pub fn as_i32(&self) -> (r: Option<i32>)
        ensures
            r == (match self@ {
                WasmValue::I32(v) => Some(v),
                _ => None,
            }),
    {
        if let WasmVal::I32(v) = self {
            Some(*v)
        } else {
            None
        }
    }

    pub fn as_i64(&self) -> (r: Option<i64>)
        ensures
            r == (match self@ {
                WasmValue::I64(v) => Some(v),
                _ => None,
            }),
    {
        if let WasmVal::I64(v) = self {
            Some(*v)
        } else {
            None
        }
    }

    /// The bit pattern of an `f32` value.
    pub fn as_f32(&self) -> (r: Option<u32>)
        ensures
            r == (match self@ {
                WasmValue::F32(v) => Some(v),
                _ => None,
            }),
    {
        if let WasmVal::F32(v) = self {
            Some(*v)
        } else {
            None
        }
    }

    /// The bit pattern of an `f64` value.
    pub fn as_f64(&self) -> (r: Option<u64>)
        ensures
            r == (match self@ {
                WasmValue::F64(v) => Some(v),
                _ => None,
            }),
    {
        if let WasmVal::F64(v) = self {
            Some(*v)
        } else {
            None
        }
    }

    pub fn as_bool(&self) -> (r: Option<bool>)
        ensures
            r == (match self@ {
                WasmValue::Bool(b) => Some(b),
                _ => None,
            }),
    {
        if let WasmVal::Bool(v) = self {
            Some(*v)
        } else {
            None
        }
    }

    pub fn as_str(&self) -> (r: Option<&str>)
        ensures
            match self@ {
                WasmValue::Str(s) => r matches Some(x) && x@ == s,
                _ => r is None,
            },
    {
        if let WasmVal::Str(v) = self {
            Some(v.as_str())
        } else {
            None
        }
    }
}

// ── Strings in linear memory ─────────────────────────────────────────────────

/// Reading `len` bytes at `ptr` of `data` as UTF-8 text.
pub open spec fn read_str_spec(data: Seq<u8>, ptr: u32, len: u32) -> Result<Seq<char>, AbiError> {
    if ptr + len > data.len() {
        Err(AbiError::StringOutOfBounds(ptr, len))
    } else {
        let bytes = data.subrange(ptr as int, ptr + len);
        if valid_utf8(bytes) {
            Ok(decode_utf8(bytes))
        } else {
            Err(AbiError::InvalidUtf8)
        }
    }
}

pub open spec fn text_result_view(r: Result<String, AbiError>) -> Result<Seq<char>, AbiError> {
    match r {
        Ok(s) => Ok(s@),
        Err(e) => Err(e),
    }
}

/// `String::from_utf8`: the bytes make a `String` exactly when they are valid
/// UTF-8, and its text is then their decoding.
#[verifier::external_body]
fn string_from_utf8(bytes: Vec<u8>) -> (r: Option<String>)
    ensures
        match r {
            Some(s) => valid_utf8(bytes@) && s@ == decode_utf8(bytes@),
            None => !valid_utf8(bytes@),
        },
{
    String::from_utf8(bytes).ok()
}

/// Read the UTF-8 string of `len` bytes at `ptr` in a memory snapshot.
pub fn read_str(data: &[u8], ptr: u32, len: u32) -> (r: Result<String, AbiError>)
    ensures
        text_result_view(r) == read_str_spec(data@, ptr, len),
{
    let s = ptr as usize;
    if (ptr as u64) + (len as u64) > data.len() as u64 {
        return Err(AbiError::StringOutOfBounds(ptr, len));
    }
    let e = s + len as usize;
    let bytes = slice_to_vec(slice_subrange(data, s, e));
    match string_from_utf8(bytes) {
        Some(text) => Ok(text),
        None => Err(AbiError::InvalidUtf8),
    }
}

// ── Core types of WIT types ──────────────────────────────────────────────────

/// The core types that carry a parameter of WIT type `t`.
pub open spec fn param_core_types(t: WitType) -> Seq<CoreType> {
    match t {
        WitType::Str => seq![CoreType::I32, CoreType::I32],
        WitType::S64 => seq![CoreType::I64],
        WitType::F32 => seq![CoreType::F32],
        WitType::F64 => seq![CoreType::F64],
        _ => seq![CoreType::I32],
    }
}

/// The core parameter types of the first `n` WIT types, in order.
pub open spec fn flat_param_types(ts: Seq<WitType>, n: int) -> Seq<CoreType>
    decreases n,
{
    if n <= 0 {
        Seq::empty()
    } else {
        flat_param_types(ts, n - 1) + param_core_types(ts[n - 1])
    }
}

/// The WIT types of a parameter list.
pub open spec fn param_types(ps: Seq<WitParam>) -> Seq<WitType> {
    ps.map_values(|p: WitParam| p.ty)
}

/// The core parameter types of a parameter list.
pub open spec fn wasm_param_types(ps: Seq<WitParam>) -> Seq<CoreType> {
    flat_param_types(param_types(ps), ps.len() as int)
}

/// The core result types for a WIT result; a `string` result comes back
/// through memory, not as a core result.
pub open spec fn wasm_result_types(result: Option<WitType>) -> Seq<CoreType> {
    match result {
        None => Seq::empty(),
        Some(WitType::S64) => seq![CoreType::I64],
        Some(WitType::F32) => seq![CoreType::F32],
        Some(WitType::F64) => seq![CoreType::F64],
        Some(WitType::Str) => Seq::empty(),
        Some(_) => seq![CoreType::I32],
    }
}

fn push_param_types(out: &mut Vec<CoreType>, t: WitType)
    ensures
        final(out)@ == old(out)@ + param_core_types(t),
{
    match t {
        WitType::Str => {
            out.push(CoreType::I32);
            out.push(CoreType::I32);
        },
        WitType::S64 => out.push(CoreType::I64),
        WitType::F32 => out.push(CoreType::F32),
        WitType::F64 => out.push(CoreType::F64),
        _ => out.push(CoreType::I32),
    }
    proof {
        assert(final(out)@ =~= old(out)@ + param_core_types(t));
    }
}

/// The core parameter types of a WIT parameter list, in order: two `i32`s
/// (pointer and length) for a string, the same-named type for `s64`, `f32`
/// and `f64`, and `i32` for the rest.
pub fn wit_to_wasm_params(params: &[WitParam]) -> (r: Vec<CoreType>)
    ensures
        r@ == wasm_param_types(params@),
{
    let mut r: Vec<CoreType> = Vec::new();
    let mut i: usize = 0;
    while i < params.len()
        invariant
            i <= params@.len(),
            r@ == flat_param_types(param_types(params@), i as int),
        decreases params.len() - i,
    {
        push_param_types(&mut r, params[i].ty);
        i = i + 1;
    }
    r
}

/// The core result types for a WIT result type.
pub fn wit_to_wasm_results(result: &Option<WitType>) -> (r: Vec<CoreType>)
    ensures
        r@ == wasm_result_types(*result),
{
    let mut r: Vec<CoreType> = Vec::new();
    match result {
        None => {},
        Some(WitType::S64) => r.push(CoreType::I64),
        Some(WitType::F32) => r.push(CoreType::F32),
        Some(WitType::F64) => r.push(CoreType::F64),
        Some(WitType::Str) => {},
        Some(_) => r.push(CoreType::I32),
    }
    proof {
        assert(r@ =~= wasm_result_types(*result));
    }
    r
}

// ── Host import results ──────────────────────────────────────────────────────

/// What an import without a host callback returns: the zero of its result type.
pub open spec fn default_value(ty: Option<WitType>) -> WasmValue {
    match ty {
        Some(WitType::F32) => WasmValue::F32(0),
        Some(WitType::F64) => WasmValue::F64(0),
        Some(WitType::S64) => WasmValue::I64(0),
        Some(WitType::Bool) => WasmValue::Bool(false),
        Some(WitType::Str) => WasmValue::Str(Seq::empty()),
        _ => WasmValue::I32(0),
    }
}

/// The value an import returns when no host callback is registered for it.
pub fn default_wasm_val(ty: &Option<WitType>) -> (r: WasmVal)
    ensures
        r@ == default_value(*ty),
{
    match ty {
        Some(WitType::F32) => WasmVal::F32(0),
        Some(WitType::F64) => WasmVal::F64(0),
        Some(WitType::S64) => WasmVal::I64(0),
        Some(WitType::Bool) => WasmVal::Bool(false),
        Some(WitType::Str) => WasmVal::Str(String::new()),
        _ => WasmVal::I32(0),
    }
}

/// The core value an import hands back to the module for a host result.
pub open spec fn encode_result(ty: Option<WitType>, val: WasmValue) -> RawVal {
    match (ty, val) {
        (Some(WitType::Bool), WasmValue::Bool(b)) => RawVal::I32(
            if b {
                1
            } else {
                0
            },
        ),
        (Some(WitType::Bool), WasmValue::I32(v)) => RawVal::I32(v),
        (Some(WitType::F32), WasmValue::F32(v)) => RawVal::F32(v),
        (Some(WitType::F64), WasmValue::F64(v)) => RawVal::F64(v),
        (Some(WitType::S64), WasmValue::I64(v)) => RawVal::I64(v),
        (_, WasmValue::I32(v)) => RawVal::I32(v),
        (_, WasmValue::F64(v)) => RawVal::F64(v),
        _ => RawVal::I32(0),
    }
}

/// Encode a host result for the module.
pub fn encode_result_val(ty: &Option<WitType>, val: &WasmVal) -> (r: RawVal)
    ensures
        r == encode_result(*ty, val@),
{
    match (ty, val) {
        (Some(WitType::Bool), WasmVal::Bool(b)) => RawVal::I32(
            if *b {
                1
            } else {
                0
            },
        ),
        (Some(WitType::Bool), WasmVal::I32(v)) => RawVal::I32(*v),
        (Some(WitType::F32), WasmVal::F32(v)) => RawVal::F32(*v),
        (Some(WitType::F64), WasmVal::F64(v)) => RawVal::F64(*v),
        (Some(WitType::S64), WasmVal::I64(v)) => RawVal::I64(*v),
        (_, WasmVal::I32(v)) => RawVal::I32(*v),
        (_, WasmVal::F64(v)) => RawVal::F64(*v),
        _ => RawVal::I32(0),
    }
}

/// The host value an import hands back: what its callback returned, or the
/// zero of its result type when no callback is registered for it.
pub open spec fn import_value(ty: Option<WitType>, host: Option<WasmValue>) -> WasmValue {
    match host {
        Some(v) => v,
        None => default_value(ty),
    }
}

/// The core value an import returns to the module, given what its host
/// callback returned (`None` when the import has no callback).
pub fn import_result(ty: &Option<WitType>, host: Option<WasmVal>) -> (r: RawVal)
    ensures
        r == encode_result(
            *ty,
            import_value(
                *ty,
                match host {
                    Some(v) => Some(v@),
                    None => None,
                },
            ),
        ),
{
    match host {
        Some(v) => encode_result_val(ty, &v),
        None => encode_result_val(ty, &default_wasm_val(ty)),
    }
}

// ── Lifting import arguments ─────────────────────────────────────────────────

/// The core type of a core value.
pub open spec fn core_type_of(v: RawVal) -> Option<CoreType> {
    match v {
        RawVal::I32(_) => Some(CoreType::I32),
        RawVal::I64(_) => Some(CoreType::I64),
        RawVal::F32(_) => Some(CoreType::F32),
        RawVal::F64(_) => Some(CoreType::F64),
        RawVal::Other => None,
    }
}

/// Whether `raw` holds exactly one value of each of the core types `types`.
pub open spec fn raw_fits_spec(types: Seq<CoreType>, raw: Seq<RawVal>) -> bool {
    &&& raw.len() == types.len()
    &&& forall|k: int| 0 <= k < raw.len() ==> core_type_of(#[trigger] raw[k]) == Some(types[k])
}

/// Whether `raw` holds exactly one value of each of the core types `types`.
pub fn raw_fits(types: &[CoreType], raw: &[RawVal]) -> (r: bool)
    ensures
        r == raw_fits_spec(types@, raw@),
{
    if raw.len() != types.len() {
        return false;
    }
    let mut k: usize = 0;
    while k < raw.len()
        invariant
            raw@.len() == types@.len(),
            k <= raw@.len(),
            forall|m: int| 0 <= m < k ==> core_type_of(#[trigger] raw@[m]) == Some(types@[m]),
        decreases raw.len() - k,
    {
        let ok = match (raw[k], types[k]) {
            (RawVal::I32(_), CoreType::I32) => true,
            (RawVal::I64(_), CoreType::I64) => true,
            (RawVal::F32(_), CoreType::F32) => true,
            (RawVal::F64(_), CoreType::F64) => true,
            _ => false,
        };
        if !ok {
            return false;
        }
        k = k + 1;
    }
    true
}

pub open spec fn raw_i32(v: RawVal) -> i32 {
    match v {
        RawVal::I32(x) => x,
        _ => 0,
    }
}

/// The host value of one import argument of WIT type `t` whose core values
/// start at `raw[k]`; a string is read from memory.
pub open spec fn lift_one(t: WitType, raw: Seq<RawVal>, k: int, mem: Option<Seq<u8>>) -> Result<
    WasmValue,
    AbiError,
> {
    match t {
        WitType::Str => match mem {
            None => Err(AbiError::NoMemoryExport),
            Some(m) => match read_str_spec(m, raw_i32(raw[k]) as u32, raw_i32(raw[k + 1]) as u32) {
                Ok(s) => Ok(WasmValue::Str(s)),
                Err(e) => Err(e),
            },
        },
        WitType::Bool => Ok(WasmValue::Bool(raw_i32(raw[k]) != 0)),
        WitType::S32 => Ok(WasmValue::I32(raw_i32(raw[k]))),
        WitType::S64 => Ok(
            WasmValue::I64(
                match raw[k] {
                    RawVal::I64(x) => x,
                    _ => 0,
                },
            ),
        ),
        WitType::F32 => Ok(
            WasmValue::F32(
                match raw[k] {
                    RawVal::F32(x) => x,
                    _ => 0,
                },
            ),
        ),
        WitType::F64 => Ok(
            WasmValue::F64(
                match raw[k] {
                    RawVal::F64(x) => x,
                    _ => 0,
                },
            ),
        ),
    }
}

/// How many core values carry a parameter of WIT type `t`.
pub open spec fn width(t: WitType) -> int {
    if t == WitType::Str {
        2
    } else {
        1
    }
}

/// The host values of the import arguments of types `ts[i..]`, whose core
/// values start at `raw[k]`; the first failure, in parameter order, wins.
pub open spec fn lift_from(ts: Seq<WitType>, raw: Seq<RawVal>, mem: Option<Seq<u8>>, i: int, k: int) -> Result<
    Seq<WasmValue>,
    AbiError,
>
    decreases ts.len() - i,
{
    if i < 0 || i >= ts.len() {
        Ok(Seq::empty())
    } else {
        match lift_one(ts[i], raw, k, mem) {
            Err(e) => Err(e),
            Ok(v) => match lift_from(ts, raw, mem, i + 1, k + width(ts[i])) {
                Ok(rest) => Ok(seq![v] + rest),
                Err(e) => Err(e),
            },
        }
    }
}

/// The host values of all import arguments.
pub open spec fn lift_args(ts: Seq<WitType>, raw: Seq<RawVal>, mem: Option<Seq<u8>>) -> Result<
    Seq<WasmValue>,
    AbiError,
> {
    lift_from(ts, raw, mem, 0, 0)
}

pub open spec fn mem_view(memory: Option<&[u8]>) -> Option<Seq<u8>> {
    match memory {
        Some(m) => Some(m@),
        None => None,
    }
}

pub open spec fn values_result_view(r: Result<Vec<WasmVal>, AbiError>) -> Result<
    Seq<WasmValue>,
    AbiError,
> {
    match r {
        Ok(vs) => Ok(values_view(vs@)),
        Err(e) => Err(e),
    }
}

proof fn lemma_flat_prefix_len(ts: Seq<WitType>, n: int)
    requires
        0 <= n <= ts.len(),
    ensures
        flat_param_types(ts, n).len() >= n,
        forall|m: int| 0 <= m <= n ==> flat_param_types(ts, m).len() <= flat_param_types(ts, n).len(),
    decreases n,
{
    if n > 0 {
        lemma_flat_prefix_len(ts, n - 1);
    }
}

proof fn lemma_flat_prefix_index(ts: Seq<WitType>, n: int, m: int)
    requires
        0 <= m < n <= ts.len(),
    ensures
        flat_param_types(ts, m + 1).len() <= flat_param_types(ts, n).len(),
        forall|j: int|
            0 <= j < flat_param_types(ts, m + 1).len() ==> #[trigger] flat_param_types(ts, n)[j]
                == flat_param_types(ts, m + 1)[j],
    decreases n,
{
    if n > m + 1 {
        lemma_flat_prefix_index(ts, n - 1, m);
        lemma_flat_prefix_len(ts, n - 1);
    }
}

/// Decode the core arguments of an import call into host values: a string's
/// pointer and length are read from `memory` (a module without memory fails
/// there), `bool` is non-zero, numbers pass as they are.
pub fn lift_import_args(params: &[WitParam], raw: &[RawVal], memory: Option<&[u8]>) -> (r: Result<
    Vec<WasmVal>,
    AbiError,
>)
    requires
        raw_fits_spec(wasm_param_types(params@), raw@),
    ensures
        values_result_view(r) == lift_args(param_types(params@), raw@, mem_view(memory)),
{
    let ghost ts = param_types(params@);
    let mut out: Vec<WasmVal> = Vec::new();
    let mut i: usize = 0;
    let mut k: usize = 0;
    proof {
        lemma_flat_prefix_len(ts, ts.len() as int);
    }
    while i < params.len()
        invariant
            ts == param_types(params@),
            i <= params@.len(),
            k == flat_param_types(ts, i as int).len(),
            raw_fits_spec(flat_param_types(ts, ts.len() as int), raw@),
            flat_param_types(ts, ts.len() as int).len() >= flat_param_types(ts, i as int).len(),
            lift_args(ts, raw@, mem_view(memory)) == match lift_from(
                ts,
                raw@,
                mem_view(memory),
                i as int,
                k as int,
            ) {
                Ok(rest) => Ok(values_view(out@) + rest),
                Err(e) => Err(e),
            },
        decreases params.len() - i,
    {
        proof {
            lemma_flat_prefix_index(ts, ts.len() as int, i as int);
            lemma_flat_prefix_len(ts, ts.len() as int);
            assert(flat_param_types(ts, i + 1) =~= flat_param_types(ts, i as int) + param_core_types(
                ts[i as int],
            ));
            assert(flat_param_types(ts, ts.len() as int)[k as int] == flat_param_types(ts, i + 1)[k as int]);
        }
        let ty = params[i].ty;
        let ghost before = out@;
        let v = match ty {
            WitType::Str => {
                proof {
                    assert(flat_param_types(ts, ts.len() as int)[k + 1] == flat_param_types(ts, i + 1)[k + 1]);
                }
                let ptr = match raw[k] {
                    RawVal::I32(x) => x,
                    _ => 0,
                };
                let len = match raw[k + 1] {
                    RawVal::I32(x) => x,
                    _ => 0,
                };
                match memory {
                    None => {
                        return Err(AbiError::NoMemoryExport);
                    },
                    Some(data) => match read_str(data, ptr as u32, len as u32) {
                        Ok(s) => WasmVal::Str(s),
                        Err(e) => {
                            return Err(e);
                        },
                    },
                }
            },
            WitType::Bool => WasmVal::Bool(
                match raw[k] {
                    RawVal::I32(x) => x,
                    _ => 0,
                } != 0,
            ),
            WitType::S32 => WasmVal::I32(
                match raw[k] {
                    RawVal::I32(x) => x,
                    _ => 0,
                },
            ),
            WitType::S64 => WasmVal::I64(
                match raw[k] {
                    RawVal::I64(x) => x,
                    _ => 0,
                },
            ),
            WitType::F32 => WasmVal::F32(
                match raw[k] {
                    RawVal::F32(x) => x,
                    _ => 0,
                },
            ),
            WitType::F64 => WasmVal::F64(
                match raw[k] {
                    RawVal::F64(x) => x,
                    _ => 0,
                },
            ),
        };
        out.push(v);
        proof {
            assert(values_view(out@) =~= values_view(before).push(v@));
            assert(lift_one(ts[i as int], raw@, k as int, mem_view(memory)) == Ok::<
                WasmValue,
                AbiError,
            >(v@));
            match lift_from(ts, raw@, mem_view(memory), i + 1, k + width(ty)) {
                Ok(rest) => {
                    assert(values_view(out@) + rest =~= values_view(before) + (seq![v@] + rest));
                },
                Err(e) => {},
            }
        }
        k = if ty == WitType::Str {
            k + 2
        } else {
            k + 1
        };
        i = i + 1;
    }
    proof {
        assert(values_view(out@) =~= values_view(out@) + Seq::<WasmValue>::empty());
    }
    Ok(out)
}

// ── Export results ───────────────────────────────────────────────────────────

pub open spec fn value_result_view(r: Result<WasmVal, AbiError>) -> Result<WasmValue, AbiError> {
    match r {
        Ok(v) => Ok(v@),
        Err(e) => Err(e),
    }
}

/// The host value of an export's core results for a non-string WIT result.
pub open spec fn decode_result_spec(result: Option<WitType>, results: Seq<RawVal>) -> Result<
    WasmValue,
    AbiError,
> {
    match result {
        None => Ok(WasmValue::Void),
        Some(t) => if results.len() == 0 {
            Err(AbiError::ResultTypeMismatch)
        } else {
            match (t, results[0]) {
                (WitType::S32, RawVal::I32(v)) => Ok(WasmValue::I32(v)),
                (WitType::S64, RawVal::I64(v)) => Ok(WasmValue::I64(v)),
                (WitType::F32, RawVal::F32(v)) => Ok(WasmValue::F32(v)),
                (WitType::F64, RawVal::F64(v)) => Ok(WasmValue::F64(v)),
                (WitType::Bool, RawVal::I32(v)) => Ok(WasmValue::Bool(v != 0)),
                _ => Err(AbiError::ResultTypeMismatch),
            }
        },
    }
}

/// Decode an export's core results (a `string` result is read from memory by
/// the caller instead): `bool` is a non-zero `i32`, numbers pass as they are,
/// no result is `Void`. A result of another core type than the WIT type says
/// is an error.
pub fn decode_result(result: &Option<WitType>, results: &[RawVal]) -> (r: Result<WasmVal, AbiError>)
    requires
        *result != Some(WitType::Str),
    ensures
        value_result_view(r) == decode_result_spec(*result, results@),
{
    match result {
        None => Ok(WasmVal::Void),
        Some(t) => {
            if results.len() == 0 {
                return Err(AbiError::ResultTypeMismatch);
            }
            match (t, results[0]) {
                (WitType::S32, RawVal::I32(v)) => Ok(WasmVal::I32(v)),
                (WitType::S64, RawVal::I64(v)) => Ok(WasmVal::I64(v)),
                (WitType::F32, RawVal::F32(v)) => Ok(WasmVal::F32(v)),
                (WitType::F64, RawVal::F64(v)) => Ok(WasmVal::F64(v)),
                (WitType::Bool, RawVal::I32(v)) => Ok(WasmVal::Bool(v != 0)),
                _ => Err(AbiError::ResultTypeMismatch),
            }
        },
    }
}

/// Whether a host value has the shape of a WIT result.
pub open spec fn value_fits_result(v: WasmValue, result: Option<WitType>) -> bool {
    match result {
        None => v is Void,
        Some(WitType::S32) => v is I32,
        Some(WitType::S64) => v is I64,
        Some(WitType::F32) => v is F32,
        Some(WitType::F64) => v is F64,
        Some(WitType::Bool) => v is Bool,
        Some(WitType::Str) => v is Str,
    }
}

// ── Lowering export arguments ────────────────────────────────────────────────

/// The core value of an argument for a non-string parameter of type `ty`: a
/// `bool` parameter takes `1` for `true` and `0` for anything else, a number
/// parameter needs a value of its type.
pub open spec fn lower_scalar(ty: WitType, arg: WasmValue) -> Result<RawVal, AbiError> {
    match ty {
        WitType::Bool => Ok(
            RawVal::I32(
                if arg == WasmValue::Bool(true) {
                    1
                } else {
                    0
                },
            ),
        ),
        WitType::S32 => match arg {
            WasmValue::I32(v) => Ok(RawVal::I32(v)),
            _ => Err(AbiError::ArgTypeMismatch(ty)),
        },
        WitType::S64 => match arg {
            WasmValue::I64(v) => Ok(RawVal::I64(v)),
            _ => Err(AbiError::ArgTypeMismatch(ty)),
        },
        WitType::F32 => match arg {
            WasmValue::F32(v) => Ok(RawVal::F32(v)),
            _ => Err(AbiError::ArgTypeMismatch(ty)),
        },
        WitType::F64 => match arg {
            WasmValue::F64(v) => Ok(RawVal::F64(v)),
            _ => Err(AbiError::ArgTypeMismatch(ty)),
        },
        WitType::Str => Err(AbiError::ArgTypeMismatch(ty)),
    }
}

/// Lower one argument for a non-string parameter.
pub fn lower_scalar_arg(ty: WitType, arg: &WasmVal) -> (r: Result<RawVal, AbiError>)
    ensures
        r == lower_scalar(ty, arg@),
        r matches Ok(v) ==> !(v is Other),
{
    match ty {
        WitType::Bool => Ok(
            RawVal::I32(
                match arg {
                    WasmVal::Bool(true) => 1,
                    _ => 0,
                },
            ),
        ),
        WitType::S32 => match arg {
            WasmVal::I32(v) => Ok(RawVal::I32(*v)),
            _ => Err(AbiError::ArgTypeMismatch(ty)),
        },
        WitType::S64 => match arg {
            WasmVal::I64(v) => Ok(RawVal::I64(*v)),
            _ => Err(AbiError::ArgTypeMismatch(ty)),
        },
        WitType::F32 => match arg {
            WasmVal::F32(v) => Ok(RawVal::F32(*v)),
            _ => Err(AbiError::ArgTypeMismatch(ty)),
        },
        WitType::F64 => match arg {
            WasmVal::F64(v) => Ok(RawVal::F64(*v)),
            _ => Err(AbiError::ArgTypeMismatch(ty)),
        },
        WitType::Str => Err(AbiError::ArgTypeMismatch(ty)),
    }
}

/// Whether an argument suits a parameter of WIT type `ty` (any value suits a
/// `bool` parameter).
pub open spec fn arg_fits(ty: WitType, arg: WasmValue) -> bool {
    match ty {
        WitType::Str => arg is Str,
        WitType::Bool => true,
        _ => lower_scalar(ty, arg) is Ok,
    }
}

/// Whether the arguments that pair up with parameters suit them.
pub open spec fn args_fit(params: Seq<WitParamView>, args: Seq<WasmVal>) -> bool {
    forall|i: int|
        0 <= i < params.len() && i < args.len() ==> arg_fits(#[trigger] params[i].ty, args[i]@)
}

pub open spec fn no_other(vs: Seq<RawVal>) -> bool {
    forall|k: int| 0 <= k < vs.len() ==> !(#[trigger] vs[k] is Other)
}

/// Whether `e` records a call of the export looked up as `name` with `args`.
pub open spec fn is_call_to(e: Event, name: Seq<char>, args: Seq<RawVal>) -> bool {
    match e {
        Event::Call { func, args: a, slots: _, results: _ } => func == name && a == args,
        _ => false,
    }
}

/// Whether `l1` is `l0` with one more event, a call of `name` with `args`.
pub open spec fn appended_call(l0: Seq<Event>, l1: Seq<Event>, name: Seq<char>, args: Seq<RawVal>) -> bool {
    &&& l1.len() == l0.len() + 1
    &&& l1.subrange(0, l0.len() as int) == l0
    &&& is_call_to(l1[l0.len() as int], name, args)
}

/// Copies the bytes of a string argument into memory at `ptr`; a negative
/// pointer is refused without writing.
fn write_string(m: &mut ModuleInstance, memory: &ExportMemory, ptr: i32, bytes: &[u8]) -> (r: Result<
    (),
    AbiError,
>)
    requires
        memory.owner() == old(m).id(),
    ensures
        final(m).id() == old(m).id(),
        r matches Err(e) ==> e is StringWriteOutOfBounds,
        ptr < 0 ==> r == Err::<(), AbiError>(
            AbiError::StringWriteOutOfBounds(ptr, bytes@.len() as usize),
        ) && final(m).log() == old(m).log(),
        r is Ok ==> final(m).log() == old(m).log().push(
            Event::MemWrite { memory: memory.name(), offset: ptr as int, bytes: bytes@, done: true },
        ),
        r is Err ==> final(m).log() == old(m).log() || final(m).log() == old(m).log().push(
            Event::MemWrite { memory: memory.name(), offset: ptr as int, bytes: bytes@, done: false },
        ),
{
    if ptr < 0 {
        return Err(AbiError::StringWriteOutOfBounds(ptr, bytes.len()));
    }
    if write_memory(m, memory, ptr as usize, bytes) {
        Ok(())
    } else {
        Err(AbiError::StringWriteOutOfBounds(ptr, bytes.len()))
    }
}

/// Calls an allocator export and takes the `i32` pointer it returns.
fn call_allocator(m: &mut ModuleInstance, alloc: &ExportFunc, args: &[RawVal]) -> (r: Result<i32, AbiError>)
    requires
        alloc.owner() == old(m).id(),
        no_other(args@),
    ensures
        final(m).id() == old(m).id(),
        r matches Err(e) ==> e is AllocatorResult || e is Call,
        appended_call(old(m).log(), final(m).log(), alloc.name(), args@),
        r matches Ok(p) ==> final(m).log() == old(m).log().push(
            Event::Call { func: alloc.name(), args: args@, slots: 1, results: Some(seq![RawVal::I32(p)]) },
        ),
{
    let r = run_func(m, alloc, args, 1);
    proof {
        assert(final(m).log().subrange(0, old(m).log().len() as int) =~= old(m).log());
    }
    match r {
        Ok(res) => match res[0] {
            RawVal::I32(p) => {
                proof {
                    assert(res@ =~= seq![RawVal::I32(p)]);
                }
                Ok(p)
            },
            _ => Err(AbiError::AllocatorResult),
        },
        Err(e) => Err(AbiError::Call(error_message(&e))),
    }
}

/// Whether the function `f` takes `params` and returns `results`, all core
/// number types.
fn has_signature(m: &ModuleInstance, f: &ExportFunc, params: &[CoreType], results: &[CoreType]) -> bool
    requires
        f.owner() == m.id(),
{
    match func_signature(m, f) {
        Some((p, r)) => same_types(p.as_slice(), params) && same_types(r.as_slice(), results),
        None => false,
    }
}

/// Whether two lists of core types are the same.
fn same_types(a: &[CoreType], b: &[CoreType]) -> (r: bool)
    ensures
        r == (a@ == b@),
{
    if a.len() != b.len() {
        return false;
    }
    let mut i: usize = 0;
    while i < a.len()
        invariant
            a@.len() == b@.len(),
            i <= a@.len(),
            forall|j: int| 0 <= j < i ==> a@[j] == b@[j],
        decreases a.len() - i,
    {
        if a[i] != b[i] {
            return false;
        }
        i = i + 1;
    }
    proof {
        assert(a@ =~= b@);
    }
    true
}

/// The `u32` stored little-endian at `data[i..i + 4]`.
pub open spec fn le_u32(data: Seq<u8>, i: int) -> u32 {
    (data[i] + 256 * data[i + 1] + 65536 * data[i + 2] + 16777216 * data[i + 3]) as u32
}

/// The (pointer, length) pair of a Canonical-ABI string result, stored as two
/// little-endian words at `base` of a memory snapshot.
pub open spec fn ret_area_spec(data: Seq<u8>, base: i32) -> Result<(u32, u32), AbiError> {
    if base < 0 || base + 8 > data.len() {
        Err(AbiError::ReturnAreaOutOfBounds(base))
    } else {
        Ok((le_u32(data, base as int), le_u32(data, base + 4)))
    }
}

fn le_u32_at(data: &[u8], i: usize) -> (r: u32)
    requires
        i + 4 <= data@.len(),
    ensures
        r == le_u32(data@, i as int),
{
    (data[i] as u32) + 256 * (data[i + 1] as u32) + 65536 * (data[i + 2] as u32) + 16777216 * (
    data[i + 3] as u32)
}

/// Read the (pointer, length) pair of a Canonical-ABI string result.
pub fn read_ret_area(data: &[u8], base: i32) -> (r: Result<(u32, u32), AbiError>)
    ensures
        r == ret_area_spec(data@, base),
{
    if base < 0 || (base as u64) + 8 > data.len() as u64 {
        return Err(AbiError::ReturnAreaOutOfBounds(base));
    }
    let b = base as usize;
    Ok((le_u32_at(data, b), le_u32_at(data, b + 4)))
}

/// How many of the first `n` types are `string`.
pub open spec fn count_strs(ts: Seq<WitType>, n: int) -> int
    decreases n,
{
    if n <= 0 {
        0
    } else {
        count_strs(ts, n - 1) + if ts[n - 1] == WitType::Str {
            1int
        } else {
            0int
        }
    }
}

/// The byte length that a string argument is passed with (as the `i32` the
/// call takes).
pub open spec fn str_arg_len(arg: WasmValue) -> i32 {
    match arg {
        WasmValue::Str(s) => encode_utf8(s).len() as i32,
        _ => 0,
    }
}

/// The core arguments of an export call for the first `n` parameters, given
/// the pointers at which the string arguments were placed, in order: a string
/// is its pointer and byte length, any other argument its lowered value.
pub open spec fn lowered_args(ts: Seq<WitType>, args: Seq<WasmValue>, ptrs: Seq<i32>, n: int) -> Seq<
    RawVal,
>
    decreases n,
{
    if n <= 0 {
        Seq::empty()
    } else {
        lowered_args(ts, args, ptrs, n - 1) + if ts[n - 1] == WitType::Str {
            seq![RawVal::I32(ptrs[count_strs(ts, n - 1)]), RawVal::I32(str_arg_len(args[n - 1]))]
        } else {
            seq![lowered(ts[n - 1], args[n - 1])]
        }
    }
}

/// How many arguments pair up with parameters.
pub open spec fn arg_count(func: WitFuncView, args: Seq<WasmVal>) -> int {
    if func.params.len() < args.len() {
        func.params.len() as int
    } else {
        args.len() as int
    }
}

/// Whether some parameter that an argument pairs up with is a `string`.
pub open spec fn has_str_param(params: Seq<WitParamView>, args: Seq<WasmVal>) -> bool {
    exists|i: int| 0 <= i < params.len() && i < args.len() && #[trigger] params[i].ty == WitType::Str
}

/// What an error from lowering export arguments says of the inputs: a type
/// mismatch names the type of a parameter whose argument does not suit it;
/// the allocator errors and failed string writes come only with a string
/// argument (the allocator being `cabi_realloc` when `canonical`, else
/// `__malloc`).
pub open spec fn lowering_error(params: Seq<WitParamView>, args: Seq<WasmVal>, canonical: bool, e: AbiError) -> bool {
    match e {
        AbiError::ArgTypeMismatch(t) => exists|i: int|
            0 <= i < params.len() && i < args.len() && #[trigger] params[i].ty == t && !arg_fits(t, args[i]@),
        AbiError::MallocNotExported => !canonical && has_str_param(params, args),
        AbiError::CabiReallocNotExported => canonical && has_str_param(params, args),
        AbiError::AllocatorResult => has_str_param(params, args),
        AbiError::Call(_) => has_str_param(params, args),
        AbiError::StringWriteOutOfBounds(_, _) => has_str_param(params, args),
        _ => false,
    }
}

/// The allocator export that string arguments are copied through.
pub open spec fn alloc_name(canonical: bool) -> Seq<char> {
    if canonical {
        "cabi_realloc"@
    } else {
        "__malloc"@
    }
}

/// The core arguments of an allocation of `len` bytes for a string argument:
/// `(0, 0, 1, len)` for `cabi_realloc`, `(len)` for `__malloc`.
pub open spec fn alloc_args(canonical: bool, len: i32) -> Seq<RawVal> {
    if canonical {
        seq![RawVal::I32(0), RawVal::I32(0), RawVal::I32(1), RawVal::I32(len)]
    } else {
        seq![RawVal::I32(len)]
    }
}

/// The UTF-8 bytes of a string argument.
pub open spec fn str_bytes(v: WasmValue) -> Seq<u8> {
    match v {
        WasmValue::Str(s) => encode_utf8(s),
        _ => Seq::empty(),
    }
}

/// What lowering the first `n` arguments records, given the pointers the
/// allocator gave: for each string argument, in order, the allocator call that
/// returned its pointer and the write of its bytes to `memory` there.
pub open spec fn lowering_events(ts: Seq<WitType>, vs: Seq<WasmValue>, ptrs: Seq<i32>, n: int, canonical: bool) -> Seq<
    Event,
>
    decreases n,
{
    if n <= 0 {
        Seq::empty()
    } else {
        lowering_events(ts, vs, ptrs, n - 1, canonical) + if ts[n - 1] == WitType::Str {
            let p = ptrs[count_strs(ts, n - 1)];
            seq![
                Event::Call {
                    func: alloc_name(canonical),
                    args: alloc_args(canonical, str_arg_len(vs[n - 1])),
                    slots: 1,
                    results: Some(seq![RawVal::I32(p)]),
                },
                Event::MemWrite { memory: "memory"@, offset: p as int, bytes: str_bytes(vs[n - 1]), done: true },
            ]
        } else {
            Seq::empty()
        }
    }
}

/// Whether an event is one that lowering arguments makes: an allocator call
/// or a write to `memory`.
pub open spec fn is_lowering_event(e: Event, canonical: bool) -> bool {
    match e {
        Event::Call { func, args: _, slots: _, results: _ } => func == alloc_name(canonical),
        Event::MemWrite { memory, offset: _, bytes: _, done: _ } => memory == "memory"@,
        _ => false,
    }
}

/// Whether `l1` is `l0` followed by events that lowering arguments makes
/// only: no export other than the allocator was called.
pub open spec fn only_lowering_since(l0: Seq<Event>, l1: Seq<Event>, canonical: bool) -> bool {
    &&& l0.len() <= l1.len()
    &&& l1.subrange(0, l0.len() as int) == l0
    &&& forall|j: int| l0.len() <= j < l1.len() ==> is_lowering_event(#[trigger] l1[j], canonical)
}

proof fn lemma_only_lowering_push(l0: Seq<Event>, l1: Seq<Event>, e: Event, canonical: bool)
    requires
        only_lowering_since(l0, l1, canonical),
        is_lowering_event(e, canonical),
    ensures
        only_lowering_since(l0, l1.push(e), canonical),
{
    assert(l1.push(e).subrange(0, l0.len() as int) =~= l1.subrange(0, l0.len() as int));
    assert forall|j: int| l0.len() <= j < l1.push(e).len() implies is_lowering_event(
        #[trigger] l1.push(e)[j],
        canonical,
    ) by {
        if j < l1.len() {
            assert(l1.push(e)[j] == l1[j]);
        }
    }
}

proof fn lemma_lowering_events_ptrs(ts: Seq<WitType>, vs: Seq<WasmValue>, p: Seq<i32>, q: Seq<i32>, n: int, c: bool)
    requires
        0 <= n <= ts.len(),
        p.len() == count_strs(ts, n),
        p.len() <= q.len(),
        forall|k: int| 0 <= k < p.len() ==> p[k] == q[k],
    ensures
        lowering_events(ts, vs, p, n, c) == lowering_events(ts, vs, q, n, c),
    decreases n,
{
    if n > 0 {
        lemma_count_strs_mono(ts, n - 1);
        lemma_lowering_events_ptrs(ts, vs, p.subrange(0, count_strs(ts, n - 1)), q, n - 1, c);
        lemma_lowering_events_ptrs(ts, vs, p.subrange(0, count_strs(ts, n - 1)), p, n - 1, c);
    }
}

/// Lowers the arguments of an export call, in parameter order, for the
/// parameters that an argument pairs up with. A string is copied into memory
/// obtained from the module's allocator (`cabi_realloc` with
/// `(0, 0, 1, length)` when `canonical`, else `__malloc` with the length; an
/// allocator of another signature counts as missing) and passed as its
/// pointer and byte length; the pointers the allocator gave come back beside
/// the core arguments, in order. The record gains exactly the allocator calls
/// and the writes of the string bytes; on an error, nothing but such events.
pub fn lower_call_args(
    m: &mut ModuleInstance,
    memory: &ExportMemory,
    func: &WitFunc,
    args: &[WasmVal],
    canonical: bool,
) -> (r: Result<(Vec<RawVal>, Ghost<Seq<i32>>), AbiError>)
    requires
        memory.owner() == old(m).id(),
        memory.name() == "memory"@,
    ensures
        final(m).id() == old(m).id(),
        r matches Ok((v, ptrs)) ==> {
            &&& no_other(v@)
            &&& args_fit(func@.params, args@)
            &&& v@ == lowered_args(
                param_types(func.params@),
                values_view(args@),
                ptrs@,
                arg_count(func@, args@),
            )
            &&& final(m).log() == old(m).log() + lowering_events(
                param_types(func.params@),
                values_view(args@),
                ptrs@,
                arg_count(func@, args@),
                canonical,
            )
        },
        r matches Err(e) ==> lowering_error(func@.params, args@, canonical, e),
        r is Err ==> only_lowering_since(old(m).log(), final(m).log(), canonical),
{
    let ghost ts = param_types(func.params@);
    let ghost vs = values_view(args@);
    let ghost l0 = m.log();
    let n = if func.params.len() < args.len() {
        func.params.len()
    } else {
        args.len()
    };
    let mut wasm_args: Vec<RawVal> = Vec::new();
    let ghost mut ptrs: Seq<i32> = Seq::empty();
    let mut i: usize = 0;
    proof {
        assert(l0.subrange(0, l0.len() as int) =~= l0);
        assert(l0 + lowering_events(ts, vs, ptrs, 0, canonical) =~= l0);
    }
    while i < n
        invariant
            n == arg_count(func@, args@),
            n <= func.params@.len(),
            n <= args@.len(),
            i <= n,
            ts == param_types(func.params@),
            vs == values_view(args@),
            no_other(wasm_args@),
            forall|j: int| 0 <= j < i ==> arg_fits(#[trigger] func.params@[j].ty, args@[j]@),
            ptrs.len() == count_strs(ts, i as int),
            wasm_args@ == lowered_args(ts, vs, ptrs, i as int),
            m.id() == old(m).id(),
            memory.owner() == m.id(),
            memory.name() == "memory"@,
            l0 == old(m).log(),
            m.log() == l0 + lowering_events(ts, vs, ptrs, i as int, canonical),
            only_lowering_since(l0, m.log(), canonical),
        decreases n - i,
    {
        let ghost before = wasm_args@;
        let ghost log_i = m.log();
        let ty = func.params[i].ty;
        match ty {
            WitType::Str => {
                proof {
                    assert(func@.params[i as int].ty == WitType::Str);
                }
                let s = match args[i].as_str() {
                    Some(s) => s,
                    None => {
                        return Err(AbiError::ArgTypeMismatch(WitType::Str));
                    },
                };
                let bytes = s.as_bytes();
                let len = bytes.len() as i32;
                let alloc = if canonical {
                    let cabi = match get_func(m, "cabi_realloc") {
                        Some(f) => f,
                        None => {
                            return Err(AbiError::CabiReallocNotExported);
                        },
                    };
                    if !has_signature(m, &cabi, &[CoreType::I32, CoreType::I32, CoreType::I32, CoreType::I32], &[CoreType::I32]) {
                        return Err(AbiError::CabiReallocNotExported);
                    }
                    cabi
                } else {
                    let malloc = match get_func(m, "__malloc") {
                        Some(f) => f,
                        None => {
                            return Err(AbiError::MallocNotExported);
                        },
                    };
                    if !has_signature(m, &malloc, &[CoreType::I32], &[CoreType::I32]) {
                        return Err(AbiError::MallocNotExported);
                    }
                    malloc
                };
                let alloc_call_args: Vec<RawVal> = if canonical {
                    vec![RawVal::I32(0), RawVal::I32(0), RawVal::I32(1), RawVal::I32(len)]
                } else {
                    vec![RawVal::I32(len)]
                };
                proof {
                    assert(alloc_call_args@ =~= alloc_args(canonical, str_arg_len(vs[i as int])));
                    assert(alloc.name() == alloc_name(canonical));
                }
                let ptr = match call_allocator(m, &alloc, alloc_call_args.as_slice()) {
                    Ok(p) => p,
                    Err(e) => {
                        proof {
                            let l1 = m.log();
                            assert(l1 =~= log_i.push(l1[log_i.len() as int]));
                            lemma_only_lowering_push(l0, log_i, l1[log_i.len() as int], canonical);
                        }
                        return Err(e);
                    },
                };
                let ghost log_a = m.log();
                proof {
                    lemma_only_lowering_push(l0, log_i, log_a[log_i.len() as int], canonical);
                }
                match write_string(m, memory, ptr, bytes) {
                    Ok(()) => {},
                    Err(e) => {
                        proof {
                            if m.log() != log_a {
                                lemma_only_lowering_push(l0, log_a, m.log().last(), canonical);
                                assert(m.log() =~= log_a.push(m.log().last()));
                            }
                        }
                        return Err(e);
                    },
                }
                wasm_args.push(RawVal::I32(ptr));
                wasm_args.push(RawVal::I32(len));
                proof {
                    let old_ptrs = ptrs;
                    ptrs = ptrs.push(ptr);
                    assert(lowered_args(ts, vs, old_ptrs, i as int) =~= lowered_args(ts, vs, ptrs, i as int)) by {
                        lemma_lowered_args_ptrs(ts, vs, old_ptrs, ptrs, i as int);
                    }
                    assert(wasm_args@ =~= lowered_args(ts, vs, ptrs, i + 1));
                    lemma_lowering_events_ptrs(ts, vs, old_ptrs, ptrs, i as int, canonical);
                    lemma_count_strs_mono(ts, i as int);
                    assert(ptrs[count_strs(ts, i as int)] == ptr);
                    assert(m.log() =~= l0 + lowering_events(ts, vs, ptrs, i + 1, canonical));
                    lemma_only_lowering_push(l0, log_a, m.log().last(), canonical);
                    assert(m.log() =~= log_a.push(m.log().last()));
                }
            },
            _ => {
                let v = match lower_scalar_arg(ty, &args[i]) {
                    Ok(v) => v,
                    Err(e) => {
                        proof {
                            assert(func@.params[i as int].ty == ty);
                        }
                        return Err(e);
                    },
                };
                wasm_args.push(v);
                proof {
                    assert(wasm_args@ =~= lowered_args(ts, vs, ptrs, i + 1));
                    assert(lowering_events(ts, vs, ptrs, i + 1, canonical) =~= lowering_events(ts, vs, ptrs, i as int, canonical));
                }
            },
        }
        i = i + 1;
    }
    Ok((wasm_args, Ghost(ptrs)))
}

proof fn lemma_lowered_args_ptrs(ts: Seq<WitType>, args: Seq<WasmValue>, p: Seq<i32>, q: Seq<i32>, n: int)
    requires
        0 <= n <= ts.len(),
        p.len() == count_strs(ts, n),
        p.len() <= q.len(),
        forall|k: int| 0 <= k < p.len() ==> p[k] == q[k],
    ensures
        lowered_args(ts, args, p, n) == lowered_args(ts, args, q, n),
    decreases n,
{
    if n > 0 {
        lemma_count_strs_mono(ts, n - 1);
        lemma_lowered_args_ptrs(ts, args, p.subrange(0, count_strs(ts, n - 1)), q, n - 1);
        lemma_lowered_args_ptrs(ts, args, p.subrange(0, count_strs(ts, n - 1)), p, n - 1);
    }
}

proof fn lemma_count_strs_mono(ts: Seq<WitType>, n: int)
    requires
        0 <= n < ts.len(),
    ensures
        0 <= count_strs(ts, n) <= count_strs(ts, n + 1),
        ts[n] == WitType::Str ==> count_strs(ts, n + 1) == count_strs(ts, n) + 1,
    decreases n,
{
    if n > 0 {
        lemma_count_strs_mono(ts, n - 1);
    }
}

/// The `i32` value of the global exported under `name`. Whether there is such
/// a global and what it holds are up to the module and the store; an error
/// names the global that was asked for.
fn read_global_i32(m: &mut ModuleInstance, name: &str) -> (r: Result<i32, AbiError>)
    ensures
        final(m).id() == old(m).id(),
        r matches Err(e) ==> e is GlobalNotFound || e is GlobalNotI32,
        r matches Err(AbiError::GlobalNotFound(n)) ==> n@ == name@,
        r matches Err(AbiError::GlobalNotI32(n)) ==> n@ == name@,
        r matches Ok(v) ==> final(m).log() == old(m).log().push(
            Event::GlobalRead { global: name@, value: RawVal::I32(v) },
        ),
{
    let g = match get_global(m, name) {
        Some(g) => g,
        None => {
            return Err(AbiError::GlobalNotFound(name.to_owned()));
        },
    };
    match read_global(m, &g) {
        RawVal::I32(v) => Ok(v),
        _ => Err(AbiError::GlobalNotI32(name.to_owned())),
    }
}

/// The WIT types of a parameter list, taken by its view.
pub open spec fn view_param_types(ps: Seq<WitParamView>) -> Seq<WitType> {
    ps.map_values(|p: WitParamView| p.ty)
}

/// The record left before the export itself is called: the events that
/// lowering the arguments made, with the pointers `ptrs` the allocator gave.
pub open spec fn lowered_log(func: WitFuncView, args: Seq<WasmVal>, l0: Seq<Event>, ptrs: Seq<i32>, canonical: bool) -> Seq<
    Event,
> {
    l0 + lowering_events(view_param_types(func.params), values_view(args), ptrs, arg_count(func, args), canonical)
}

/// The number of result slots the export itself is called with: one for each
/// core result type of its WIT result (none for a string result, which comes
/// back through memory).
pub open spec fn export_slots(func: WitFuncView) -> nat {
    wasm_result_types(func.result).len()
}

/// The core arguments the export itself is called with.
pub open spec fn export_args(func: WitFuncView, args: Seq<WasmVal>, ptrs: Seq<i32>) -> Seq<RawVal> {
    lowered_args(view_param_types(func.params), values_view(args), ptrs, arg_count(func, args))
}

/// A successful call of a wasic-convention export: after lowering the
/// arguments, the export named by the camelCase name ran once with the lowered
/// arguments and returned `res`; a string result was then read at the
/// pointer `p` and length `l` found in `__str_ret_ptr` and `__str_ret_len`,
/// from the memory contents `data` after the call; any other result is the
/// decoding of `res`.
pub open spec fn wasic_run(
    func: WitFuncView,
    args: Seq<WasmVal>,
    l0: Seq<Event>,
    l1: Seq<Event>,
    v: WasmValue,
    ptrs: Seq<i32>,
    res: Seq<RawVal>,
    p: i32,
    l: i32,
    data: Seq<u8>,
) -> bool {
    let called = lowered_log(func, args, l0, ptrs, false).push(
        Event::Call { func: func.camel_name, args: export_args(func, args, ptrs), slots: export_slots(func), results: Some(res) },
    );
    if func.result == Some(WitType::Str) {
        &&& l1 == called + seq![
            Event::GlobalRead { global: "__str_ret_ptr"@, value: RawVal::I32(p) },
            Event::GlobalRead { global: "__str_ret_len"@, value: RawVal::I32(l) },
            Event::MemRead { memory: "memory"@, bytes: data },
        ]
        &&& v is Str
        &&& read_str_spec(data, p as u32, l as u32) == Ok::<Seq<char>, AbiError>(v->Str_0)
    } else {
        &&& l1 == called
        &&& decode_result_spec(func.result, res) == Ok::<WasmValue, AbiError>(v)
    }
}

/// A call of the export itself that the engine reported as failed, after the
/// arguments were lowered (with `extra` appended to the core arguments).
pub open spec fn export_failed(
    func: WitFuncView,
    args: Seq<WasmVal>,
    l0: Seq<Event>,
    l1: Seq<Event>,
    ptrs: Seq<i32>,
    canonical: bool,
    extra: Seq<Event>,
    extra_args: Seq<RawVal>,
) -> bool {
    l1 == (lowered_log(func, args, l0, ptrs, canonical) + extra).push(
        Event::Call { func: func.camel_name, args: export_args(func, args, ptrs) + extra_args, slots: export_slots(func), results: None },
    )
}

/// A successful call of a component-style export: after lowering the
/// arguments, a string result takes a return area `rb` from
/// `cabi_realloc(0, 0, 4, 8)`, the export ran once with the lowered arguments
/// followed by `rb`, and the string was read through the return area of the
/// memory contents `data` after the call; any other result is the decoding of
/// what the export, run once with the lowered arguments, returned.
pub open spec fn component_run(
    func: WitFuncView,
    args: Seq<WasmVal>,
    l0: Seq<Event>,
    l1: Seq<Event>,
    v: WasmValue,
    ptrs: Seq<i32>,
    res: Seq<RawVal>,
    rb: i32,
    data: Seq<u8>,
) -> bool {
    let pre = lowered_log(func, args, l0, ptrs, true);
    if func.result == Some(WitType::Str) {
        &&& l1 == pre + seq![
            Event::Call { func: "cabi_realloc"@, args: ret_area_alloc_args(), slots: 1, results: Some(seq![RawVal::I32(rb)]) },
            Event::Call { func: func.camel_name, args: export_args(func, args, ptrs).push(RawVal::I32(rb)), slots: export_slots(func), results: Some(res) },
            Event::MemRead { memory: "memory"@, bytes: data },
        ]
        &&& v is Str
        &&& ret_area_spec(data, rb) matches Ok((p, l)) && read_str_spec(data, p, l) == Ok::<Seq<char>, AbiError>(v->Str_0)
    } else {
        &&& l1 == pre.push(Event::Call { func: func.camel_name, args: export_args(func, args, ptrs), slots: export_slots(func), results: Some(res) })
        &&& decode_result_spec(func.result, res) == Ok::<WasmValue, AbiError>(v)
    }
}

/// The core arguments of the return-area allocation: `(0, 0, 4, 8)`.
pub open spec fn ret_area_alloc_args() -> Seq<RawVal> {
    seq![RawVal::I32(0), RawVal::I32(0), RawVal::I32(4), RawVal::I32(8)]
}

/// The errors raised before any code of the module runs.
pub open spec fn before_run_error(e: AbiError) -> bool {
    e is NoMemoryExport || e is ExportNotFound
}

/// The errors raised while lowering the arguments.
pub open spec fn lowering_error_kind(e: AbiError) -> bool {
    e is ArgTypeMismatch || e is MallocNotExported || e is CabiReallocNotExported || e is AllocatorResult
        || e is StringWriteOutOfBounds
}

/// What an error from a call into a wasic-convention export says of the
/// inputs: a missing export is the function's camelCase name, the errors of
/// the string-return globals and of reading the string come only with a
/// `string` result, a result mismatch only with another result, a failing call
/// without string arguments only when the arguments suit the parameters, and
/// the rest are errors of lowering the arguments.
pub open spec fn wasic_call_error(func: WitFuncView, args: Seq<WasmVal>, e: AbiError) -> bool {
    match e {
        AbiError::NoMemoryExport => true,
        AbiError::ExportNotFound(n) => n@ == func.camel_name,
        AbiError::GlobalNotFound(_) => func.result == Some(WitType::Str),
        AbiError::GlobalNotI32(_) => func.result == Some(WitType::Str),
        AbiError::StringOutOfBounds(_, _) => func.result == Some(WitType::Str),
        AbiError::InvalidUtf8 => func.result == Some(WitType::Str),
        AbiError::ResultTypeMismatch => func.result is Some && func.result != Some(WitType::Str),
        AbiError::Call(_) => has_str_param(func.params, args) || args_fit(func.params, args),
        _ => lowering_error(func.params, args, false, e),
    }
}

/// What an error from a call into a component-style export says of the
/// inputs: as for the wasic convention, with `cabi_realloc` required up front,
/// and the return area and its allocation only with a `string` result.
pub open spec fn component_call_error(func: WitFuncView, args: Seq<WasmVal>, e: AbiError) -> bool {
    match e {
        AbiError::NoMemoryExport => true,
        AbiError::CabiReallocNotExported => true,
        AbiError::ExportNotFound(n) => n@ == func.camel_name,
        AbiError::ReturnAreaOutOfBounds(_) => func.result == Some(WitType::Str),
        AbiError::StringOutOfBounds(_, _) => func.result == Some(WitType::Str),
        AbiError::InvalidUtf8 => func.result == Some(WitType::Str),
        AbiError::AllocatorResult => func.result == Some(WitType::Str) || has_str_param(func.params, args),
        AbiError::ResultTypeMismatch => func.result is Some && func.result != Some(WitType::Str),
        AbiError::Call(_) => has_str_param(func.params, args) || args_fit(func.params, args),
        _ => lowering_error(func.params, args, true, e),
    }
}

proof fn lemma_only_lowering_refl(l: Seq<Event>, canonical: bool)
    ensures
        only_lowering_since(l, l, canonical),
{
    assert(l.subrange(0, l.len() as int) =~= l);
}

proof fn lemma_lowered_log(func: WitFunc, args: Seq<WasmVal>, l0: Seq<Event>, ptrs: Seq<i32>, canonical: bool)
    ensures
        param_types(func.params@) == view_param_types(func@.params),
        lowered_log(func@, args, l0, ptrs, canonical) == l0 + lowering_events(
            param_types(func.params@),
            values_view(args),
            ptrs,
            arg_count(func@, args),
            canonical,
        ),
        export_args(func@, args, ptrs) == lowered_args(
            param_types(func.params@),
            values_view(args),
            ptrs,
            arg_count(func@, args),
        ),
{
    assert(param_types(func.params@) =~= view_param_types(func@.params));
}

/// Call a WIT export of a module built with the wasic convention: strings go
/// in through `__malloc` and come back through the `__str_ret_ptr` and
/// `__str_ret_len` globals. On success the export named by the camelCase name
/// ran once, with the lowered arguments, and the value is what it returned,
/// decoded (or the string it left in memory). A missing memory or export
/// runs nothing, and an error while lowering runs nothing but `__malloc`.
pub fn call_wasic_export(m: &mut ModuleInstance, func: &WitFunc, args: &[WasmVal]) -> (r:
    Result<WasmVal, AbiError>)
    ensures
        r matches Ok(v) ==> value_fits_result(v@, func.result) && args_fit(func@.params, args@),
        r matches Ok(v) ==> exists|ptrs: Seq<i32>, res: Seq<RawVal>, p: i32, l: i32, data: Seq<u8>|
            #[trigger] wasic_run(func@, args@, old(m).log(), final(m).log(), v@, ptrs, res, p, l, data),
        r matches Err(e) ==> wasic_call_error(func@, args@, e),
        r matches Err(e) ==> (before_run_error(e) ==> final(m).log() == old(m).log()),
        r matches Err(e) ==> (lowering_error_kind(e) ==> only_lowering_since(old(m).log(), final(m).log(), false)),
        r matches Err(AbiError::Call(_)) ==> only_lowering_since(old(m).log(), final(m).log(), false) || exists|
            ptrs: Seq<i32>,
        | #[trigger] export_failed(func@, args@, old(m).log(), final(m).log(), ptrs, false, Seq::empty(), Seq::empty()),
        final(m).id() == old(m).id(),
{
    let ghost l0 = m.log();
    let memory = match get_memory(m, "memory") {
        Some(m) => m,
        None => {
            return Err(AbiError::NoMemoryExport);
        },
    };
    let wasm_fn = match get_func(m, func.camel_name.as_str()) {
        Some(f) => f,
        None => {
            return Err(AbiError::ExportNotFound(func.camel_name.clone()));
        },
    };
    let (wasm_args, ptrs) = lower_call_args(m, &memory, func, args, false)?;
    let ghost l1 = m.log();
    proof {
        lemma_lowered_log(*func, args@, l0, ptrs@, false);
    }
    if func.result == Some(WitType::Str) {
        let call = run_func(m, &wasm_fn, wasm_args.as_slice(), 0);
        if let Err(e) = call {
            proof {
                assert(l1 + Seq::<Event>::empty() =~= l1);
                assert(export_args(func@, args@, ptrs@) + Seq::<RawVal>::empty() =~= export_args(func@, args@, ptrs@));
                assert(export_failed(func@, args@, l0, m.log(), ptrs@, false, Seq::empty(), Seq::empty()));
            }
            return Err(AbiError::Call(error_message(&e)));
        }
        let ghost res = match call {
            Ok(v) => v@,
            Err(_) => Seq::empty(),
        };
        let ptr = read_global_i32(m, "__str_ret_ptr")?;
        let len = read_global_i32(m, "__str_ret_len")?;
        let data = read_memory(m, &memory);
        let s = read_str(data.as_slice(), ptr as u32, len as u32)?;
        proof {
            let called = l1.push(Event::Call { func: func@.camel_name, args: export_args(func@, args@, ptrs@), slots: export_slots(func@), results: Some(res) });
            assert(m.log() =~= called + seq![
                Event::GlobalRead { global: "__str_ret_ptr"@, value: RawVal::I32(ptr) },
                Event::GlobalRead { global: "__str_ret_len"@, value: RawVal::I32(len) },
                Event::MemRead { memory: "memory"@, bytes: data@ },
            ]);
            assert(wasic_run(func@, args@, l0, m.log(), WasmValue::Str(s@), ptrs@, res, ptr, len, data@));
        }
        return Ok(WasmVal::Str(s));
    }
    let n: usize = if func.result.is_some() {
        1
    } else {
        0
    };
    let results = match run_func(m, &wasm_fn, wasm_args.as_slice(), n) {
        Ok(v) => v,
        Err(e) => {
            proof {
                assert(l1 + Seq::<Event>::empty() =~= l1);
                assert(export_args(func@, args@, ptrs@) + Seq::<RawVal>::empty() =~= export_args(func@, args@, ptrs@));
                assert(export_failed(func@, args@, l0, m.log(), ptrs@, false, Seq::empty(), Seq::empty()));
            }
            return Err(AbiError::Call(error_message(&e)));
        },
    };
    let r = decode_result(&func.result, results.as_slice());
    proof {
        if r is Ok {
            assert(wasic_run(func@, args@, l0, m.log(), r->Ok_0@, ptrs@, results@, 0, 0, Seq::empty()));
        }
    }
    r
}

/// Call a WIT export of a component-style module (Canonical ABI): strings go
/// in through `cabi_realloc`, and a string result comes back through a return
/// area of two little-endian words (pointer, length) that the caller allocates
/// with `cabi_realloc(0, 0, 4, 8)` and passes as a last argument. The module
/// must export `cabi_realloc` with the signature `(i32, i32, i32, i32) -> i32`.
/// On success the export named by the camelCase name ran once, with the
/// lowered arguments (and the return area), and the value is what it
/// returned, decoded (or the string it left in memory). A missing memory or
/// export runs nothing, and a missing allocator or an error while lowering runs
/// nothing but `cabi_realloc`.
pub fn call_component_export(m: &mut ModuleInstance, func: &WitFunc, args: &[WasmVal]) -> (r:
    Result<WasmVal, AbiError>)
    ensures
        r matches Ok(v) ==> value_fits_result(v@, func.result) && args_fit(func@.params, args@),
        r matches Ok(v) ==> exists|ptrs: Seq<i32>, res: Seq<RawVal>, rb: i32, data: Seq<u8>|
            #[trigger] component_run(func@, args@, old(m).log(), final(m).log(), v@, ptrs, res, rb, data),
        r matches Err(e) ==> component_call_error(func@, args@, e),
        r matches Err(e) ==> (before_run_error(e) ==> final(m).log() == old(m).log()),
        r matches Err(e) ==> (lowering_error_kind(e) && !(func.result == Some(WitType::Str) && e is AllocatorResult)
            ==> only_lowering_since(old(m).log(), final(m).log(), true)),
        r matches Err(AbiError::Call(_)) ==> only_lowering_since(old(m).log(), final(m).log(), true) || (exists|
            ptrs: Seq<i32>,
            rb: i32,
        | #[trigger] export_failed(
            func@,
            args@,
            old(m).log(),
            final(m).log(),
            ptrs,
            true,
            seq![
                Event::Call {
                    func: "cabi_realloc"@,
                    args: ret_area_alloc_args(),
                    slots: 1,
                    results: Some(seq![RawVal::I32(rb)]),
                },
            ],
            seq![RawVal::I32(rb)],
        )) || (exists|ptrs: Seq<i32>| #[trigger] export_failed(
            func@,
            args@,
            old(m).log(),
            final(m).log(),
            ptrs,
            true,
            Seq::empty(),
            Seq::empty(),
        )) || (exists|ptrs: Seq<i32>| #[trigger] appended_call(
            lowered_log(func@, args@, old(m).log(), ptrs, true),
            final(m).log(),
            "cabi_realloc"@,
            ret_area_alloc_args(),
        )),
        final(m).id() == old(m).id(),
{
    let ghost l0 = m.log();
    let memory = match get_memory(m, "memory") {
        Some(m) => m,
        None => {
            return Err(AbiError::NoMemoryExport);
        },
    };
    let cabi = match get_func(m, "cabi_realloc") {
        Some(f) => f,
        None => {
            proof {
                lemma_only_lowering_refl(l0, true);
            }
            return Err(AbiError::CabiReallocNotExported);
        },
    };
    if !has_signature(m, &cabi, &[CoreType::I32, CoreType::I32, CoreType::I32, CoreType::I32], &[CoreType::I32]) {
        proof {
            lemma_only_lowering_refl(l0, true);
        }
        return Err(AbiError::CabiReallocNotExported);
    }
    let wasm_fn = match get_func(m, func.camel_name.as_str()) {
        Some(f) => f,
        None => {
            return Err(AbiError::ExportNotFound(func.camel_name.clone()));
        },
    };
    let (mut wasm_args, ptrs) = lower_call_args(m, &memory, func, args, true)?;
    let ghost l1 = m.log();
    let ghost lowered = wasm_args@;
    proof {
        lemma_lowered_log(*func, args@, l0, ptrs@, true);
    }
    if func.result == Some(WitType::Str) {
        let ret_args = [RawVal::I32(0), RawVal::I32(0), RawVal::I32(4), RawVal::I32(8)];
        proof {
            assert(ret_args@ =~= ret_area_alloc_args());
        }
        let ret_buf = match call_allocator(m, &cabi, &ret_args) {
            Ok(p) => p,
            Err(e) => {
                proof {
                    assert(appended_call(lowered_log(func@, args@, l0, ptrs@, true), m.log(), "cabi_realloc"@, ret_area_alloc_args()));
                }
                return Err(e);
            },
        };
        let ghost l2 = m.log();
        wasm_args.push(RawVal::I32(ret_buf));
        let call = run_func(m, &wasm_fn, wasm_args.as_slice(), 0);
        if let Err(e) = call {
            proof {
                let extra = seq![
                    Event::Call { func: "cabi_realloc"@, args: ret_area_alloc_args(), slots: 1, results: Some(seq![RawVal::I32(ret_buf)]) },
                ];
                assert(l2 =~= l1 + extra);
                assert(wasm_args@ =~= export_args(func@, args@, ptrs@) + seq![RawVal::I32(ret_buf)]);
                assert(export_failed(func@, args@, l0, m.log(), ptrs@, true, extra, seq![RawVal::I32(ret_buf)]));
            }
            return Err(AbiError::Call(error_message(&e)));
        }
        let ghost res = match call {
            Ok(v) => v@,
            Err(_) => Seq::empty(),
        };
        let data = read_memory(m, &memory);
        let (ptr, len) = read_ret_area(data.as_slice(), ret_buf)?;
        let s = read_str(data.as_slice(), ptr, len)?;
        proof {
            assert(wasm_args@ =~= export_args(func@, args@, ptrs@).push(RawVal::I32(ret_buf)));
            assert(m.log() =~= l1 + seq![
                Event::Call { func: "cabi_realloc"@, args: ret_area_alloc_args(), slots: 1, results: Some(seq![RawVal::I32(ret_buf)]) },
                Event::Call { func: func@.camel_name, args: export_args(func@, args@, ptrs@).push(RawVal::I32(ret_buf)), slots: export_slots(func@), results: Some(res) },
                Event::MemRead { memory: "memory"@, bytes: data@ },
            ]);
            assert(component_run(func@, args@, l0, m.log(), WasmValue::Str(s@), ptrs@, res, ret_buf, data@));
        }
        return Ok(WasmVal::Str(s));
    }
    let n: usize = if func.result.is_some() {
        1
    } else {
        0
    };
    let results = match run_func(m, &wasm_fn, wasm_args.as_slice(), n) {
        Ok(v) => v,
        Err(e) => {
            proof {
                assert(l1 + Seq::<Event>::empty() =~= l1);
                assert(export_args(func@, args@, ptrs@) + Seq::<RawVal>::empty() =~= export_args(func@, args@, ptrs@));
                assert(export_failed(func@, args@, l0, m.log(), ptrs@, true, Seq::empty(), Seq::empty()));
            }
            return Err(AbiError::Call(error_message(&e)));
        },
    };
    let r = decode_result(&func.result, results.as_slice());
    proof {
        if r is Ok {
            assert(component_run(func@, args@, l0, m.log(), r->Ok_0@, ptrs@, results@, 0, Seq::empty()));
        }
    }
    r
}

// ── Exports without WIT ──────────────────────────────────────────────────────

/// The core value of an argument passed without WIT: numbers as they are,
/// `bool` as `1` or `0`; strings and `Void` cannot be passed.
pub open spec fn lower_raw_spec(v: WasmValue) -> Result<RawVal, AbiError> {
    match v {
        WasmValue::I32(x) => Ok(RawVal::I32(x)),
        WasmValue::I64(x) => Ok(RawVal::I64(x)),
        WasmValue::F32(x) => Ok(RawVal::F32(x)),
        WasmValue::F64(x) => Ok(RawVal::F64(x)),
        WasmValue::Bool(b) => Ok(
            RawVal::I32(
                if b {
                    1
                } else {
                    0
                },
            ),
        ),
        _ => Err(AbiError::StringsNeedWit),
    }
}

/// The host value of a core result returned without WIT.
pub open spec fn lift_raw_spec(v: RawVal) -> WasmValue {
    match v {
        RawVal::I32(x) => WasmValue::I32(x),
        RawVal::I64(x) => WasmValue::I64(x),
        RawVal::F32(x) => WasmValue::F32(x),
        RawVal::F64(x) => WasmValue::F64(x),
        RawVal::Other => WasmValue::Void,
    }
}

/// Lower one argument passed without WIT.
pub fn lower_raw_arg(v: &WasmVal) -> (r: Result<RawVal, AbiError>)
    ensures
        r == lower_raw_spec(v@),
        r matches Ok(x) ==> !(x is Other),
{
    match v {
        WasmVal::I32(x) => Ok(RawVal::I32(*x)),
        WasmVal::I64(x) => Ok(RawVal::I64(*x)),
        WasmVal::F32(x) => Ok(RawVal::F32(*x)),
        WasmVal::F64(x) => Ok(RawVal::F64(*x)),
        WasmVal::Bool(b) => Ok(
            RawVal::I32(
                if *b {
                    1
                } else {
                    0
                },
            ),
        ),
        _ => Err(AbiError::StringsNeedWit),
    }
}

/// Lift a core result returned without WIT.
pub fn lift_raw_result(v: RawVal) -> (r: WasmVal)
    ensures
        r@ == lift_raw_spec(v),
{
    match v {
        RawVal::I32(x) => WasmVal::I32(x),
        RawVal::I64(x) => WasmVal::I64(x),
        RawVal::F32(x) => WasmVal::F32(x),
        RawVal::F64(x) => WasmVal::F64(x),
        RawVal::Other => WasmVal::Void,
    }
}

/// Whether every argument can be passed without WIT.
pub open spec fn raw_lowerable(args: Seq<WasmVal>) -> bool {
    forall|i: int| 0 <= i < args.len() ==> lower_raw_spec(#[trigger] args[i]@) is Ok
}

/// Lower the arguments of a call without WIT, in order: numbers as they are,
/// `bool` as `1` or `0`. It succeeds exactly when every argument can be
/// passed, and fails with `StringsNeedWit` otherwise.
pub fn lower_raw_args(args: &[WasmVal]) -> (r: Result<Vec<RawVal>, AbiError>)
    ensures
        r is Ok <==> raw_lowerable(args@),
        r matches Ok(v) ==> v@.len() == args@.len() && forall|i: int|
            0 <= i < args@.len() ==> lower_raw_spec(args@[i]@) == Ok::<RawVal, AbiError>(#[trigger] v@[i]),
        r matches Ok(v) ==> no_other(v@),
        r matches Err(e) ==> e == AbiError::StringsNeedWit,
{
    let mut out: Vec<RawVal> = Vec::new();
    let mut i: usize = 0;
    while i < args.len()
        invariant
            i <= args@.len(),
            out@.len() == i,
            no_other(out@),
            forall|j: int| 0 <= j < i ==> lower_raw_spec(args@[j]@) == Ok::<RawVal, AbiError>(#[trigger] out@[j]),
        decreases args.len() - i,
    {
        match lower_raw_arg(&args[i]) {
            Ok(v) => {
                out.push(v);
            },
            Err(e) => {
                proof {
                    assert(lower_raw_spec(args@[i as int]@) is Err);
                }
                return Err(e);
            },
        }
        i = i + 1;
    }
    proof {
        assert forall|j: int| 0 <= j < args@.len() implies lower_raw_spec(#[trigger] args@[j]@) is Ok by {
            assert(lower_raw_spec(args@[j]@) == Ok::<RawVal, AbiError>(out@[j]));
        }
    }
    Ok(out)
}

/// What an error from a call without WIT says of the inputs: a missing export
/// is the name asked for, `StringsNeedWit` comes with an argument that cannot
/// be passed without WIT, and a failure of the call itself only when every
/// argument could be passed.
pub open spec fn raw_call_error(name: Seq<char>, args: Seq<WasmVal>, e: AbiError) -> bool {
    match e {
        AbiError::RawExportNotFound(n) => n@ == name,
        AbiError::StringsNeedWit => !raw_lowerable(args),
        AbiError::Call(_) => raw_lowerable(args),
        _ => false,
    }
}

/// The core values that arguments passed without WIT lower to.
pub open spec fn raw_lowered(args: Seq<WasmVal>) -> Seq<RawVal> {
    Seq::new(
        args.len(),
        |i: int|
            match lower_raw_spec(args[i]@) {
                Ok(r) => r,
                Err(_) => RawVal::Other,
            },
    )
}

/// A successful call without WIT: the export `name` ran once with the lowered
/// arguments and returned `res`; the value is `Void` when it returned nothing,
/// else its first result.
pub open spec fn raw_run(name: Seq<char>, args: Seq<WasmVal>, l0: Seq<Event>, l1: Seq<Event>, v: WasmValue, res: Seq<
    RawVal,
>) -> bool {
    &&& l1 == l0.push(Event::Call { func: name, args: raw_lowered(args), slots: res.len(), results: Some(res) })
    &&& v == if res.len() == 0 {
        WasmValue::Void
    } else {
        lift_raw_spec(res[0])
    }
}

/// A call without WIT that the engine reported as failed: the export `name`
/// ran with the lowered arguments and `slots` result slots.
pub open spec fn raw_failed(name: Seq<char>, args: Seq<WasmVal>, l0: Seq<Event>, l1: Seq<Event>, slots: nat) -> bool {
    l1 == l0.push(Event::Call { func: name, args: raw_lowered(args), slots, results: None })
}

/// Call a WASM export directly by name with no ABI conversion. Used when no
/// companion `.wit` file is found. The arguments are lowered by
/// [`lower_raw_args`] before any code of the module runs: on a missing export
/// or an argument that cannot be passed, nothing runs. Otherwise the export
/// `name` runs once with the lowered arguments, and the value is `Void` when it
/// returns nothing, else its first result.
pub fn call_raw_export(m: &mut ModuleInstance, name: &str, args: &[WasmVal]) -> (r:
    Result<WasmVal, AbiError>)
    ensures
        r matches Ok(v) ==> raw_lowerable(args@) && !(v@ is Bool) && !(v@ is Str),
        r matches Ok(v) ==> exists|res: Seq<RawVal>| #[trigger] raw_run(name@, args@, old(m).log(), final(m).log(), v@, res),
        r matches Err(e) ==> raw_call_error(name@, args@, e),
        r matches Err(AbiError::RawExportNotFound(_)) ==> final(m).log() == old(m).log(),
        r matches Err(AbiError::StringsNeedWit) ==> final(m).log() == old(m).log(),
        r matches Err(AbiError::Call(_)) ==> exists|k: nat| #[trigger] raw_failed(name@, args@, old(m).log(), final(m).log(), k),
        final(m).id() == old(m).id(),
{
    let ghost l0 = m.log();
    let wasm_fn = match get_func(m, name) {
        Some(f) => f,
        None => {
            return Err(AbiError::RawExportNotFound(name.to_owned()));
        },
    };
    let wasm_args = lower_raw_args(args)?;
    proof {
        assert(wasm_args@ =~= raw_lowered(args@));
    }
    let n = func_result_count(m, &wasm_fn);
    let results = match run_func(m, &wasm_fn, wasm_args.as_slice(), n) {
        Ok(v) => v,
        Err(e) => {
            proof {
                assert(raw_failed(name@, args@, l0, m.log(), n as nat));
            }
            return Err(AbiError::Call(error_message(&e)));
        },
    };
    if n == 0 {
        proof {
            assert(raw_run(name@, args@, l0, m.log(), WasmValue::Void, results@));
        }
        return Ok(WasmVal::Void);
    }
    let v = lift_raw_result(results[0]);
    proof {
        assert(raw_run(name@, args@, l0, m.log(), v@, results@));
    }
    Ok(v)
}

// ── Laws ──────────────────────────────────────────────────────────────────────

/// `mem` with `bytes` written over it at `at`.
pub open spec fn write_bytes(mem: Seq<u8>, at: int, bytes: Seq<u8>) -> Seq<u8> {
    mem.subrange(0, at) + bytes + mem.subrange(at + bytes.len(), mem.len() as int)
}

/// A string written into memory as UTF-8 (as the export calls write string
/// arguments: the bytes of `str::as_bytes`) is read back as the same string.
pub proof fn lemma_string_round_trip(mem: Seq<u8>, ptr: u32, s: Seq<char>)
    requires
        ptr + encode_utf8(s).len() <= mem.len(),
        encode_utf8(s).len() <= u32::MAX,
    ensures
        read_str_spec(write_bytes(mem, ptr as int, encode_utf8(s)), ptr, encode_utf8(s).len() as u32)
            == Ok::<Seq<char>, AbiError>(s),
{
    let bytes = encode_utf8(s);
    let m2 = write_bytes(mem, ptr as int, bytes);
    assert(m2.len() == mem.len());
    assert(m2.subrange(ptr as int, ptr + bytes.len()) =~= bytes);
    vstd::utf8::encode_utf8_valid_utf8(s);
    vstd::utf8::encode_utf8_decode_utf8(s);
}

/// A host result of the declared (non-string) type survives the trip through
/// its core value: encoding it for the module and decoding that core result
/// gives it back.
pub proof fn lemma_result_round_trip(t: WitType, v: WasmValue)
    requires
        t != WitType::Str,
        value_fits_result(v, Some(t)),
    ensures
        decode_result_spec(Some(t), seq![encode_result(Some(t), v)]) == Ok::<WasmValue, AbiError>(v),
{
}

/// The value an import returns without a host callback is encoded as a core
/// value of the import's declared core result type.
pub proof fn lemma_default_result_typed(t: WitType)
    requires
        t != WitType::Str,
    ensures
        wasm_result_types(Some(t)).len() == 1,
        core_type_of(encode_result(Some(t), default_value(Some(t)))) == Some(
            wasm_result_types(Some(t))[0],
        ),
{
}

/// The core value of a well-typed scalar argument.
pub open spec fn lowered(t: WitType, v: WasmValue) -> RawVal {
    match lower_scalar(t, v) {
        Ok(r) => r,
        Err(_) => RawVal::Other,
    }
}

/// The core values of the first `n` scalar arguments.
pub open spec fn lower_scalars(ts: Seq<WitType>, vs: Seq<WasmValue>, n: int) -> Seq<RawVal>
    decreases n,
{
    if n <= 0 {
        Seq::empty()
    } else {
        lower_scalars(ts, vs, n - 1).push(lowered(ts[n - 1], vs[n - 1]))
    }
}

/// Whether each value has the shape of the scalar (non-string) type beside it.
pub open spec fn scalars_typed(ts: Seq<WitType>, vs: Seq<WasmValue>) -> bool {
    &&& ts.len() == vs.len()
    &&& forall|i: int|
        0 <= i < ts.len() ==> #[trigger] ts[i] != WitType::Str && value_fits_result(
            vs[i],
            Some(ts[i]),
        )
}

proof fn lemma_lower_scalars(ts: Seq<WitType>, vs: Seq<WasmValue>, n: int)
    requires
        scalars_typed(ts, vs),
        0 <= n <= ts.len(),
    ensures
        lower_scalars(ts, vs, n).len() == n,
        flat_param_types(ts, n).len() == n,
        forall|i: int|
            0 <= i < n ==> #[trigger] lower_scalars(ts, vs, n)[i] == lowered(ts[i], vs[i]),
        forall|i: int| 0 <= i < n ==> #[trigger] flat_param_types(ts, n)[i] == param_core_types(ts[i])[0],
    decreases n,
{
    if n > 0 {
        lemma_lower_scalars(ts, vs, n - 1);
        assert(ts[n - 1] != WitType::Str);
        assert(param_core_types(ts[n - 1]).len() == 1);
    }
}

proof fn lemma_lift_scalars(ts: Seq<WitType>, vs: Seq<WasmValue>, mem: Option<Seq<u8>>, i: int)
    requires
        scalars_typed(ts, vs),
        0 <= i <= ts.len(),
        lower_scalars(ts, vs, ts.len() as int).len() == ts.len(),
        forall|j: int|
            0 <= j < ts.len() ==> #[trigger] lower_scalars(ts, vs, ts.len() as int)[j] == lowered(
                ts[j],
                vs[j],
            ),
    ensures
        lift_from(ts, lower_scalars(ts, vs, ts.len() as int), mem, i, i) == Ok::<
            Seq<WasmValue>,
            AbiError,
        >(vs.subrange(i, vs.len() as int)),
    decreases ts.len() - i,
{
    let raw = lower_scalars(ts, vs, ts.len() as int);
    if i < ts.len() {
        lemma_lift_scalars(ts, vs, mem, i + 1);
        assert(ts[i] != WitType::Str && value_fits_result(vs[i], Some(ts[i])));
        assert(raw[i] == lowered(ts[i], vs[i]));
        assert(lift_one(ts[i], raw, i, mem) == Ok::<WasmValue, AbiError>(vs[i]));
        assert(vs.subrange(i, vs.len() as int) =~= seq![vs[i]] + vs.subrange(i + 1, vs.len() as int));
    } else {
        assert(vs.subrange(i, vs.len() as int) =~= Seq::<WasmValue>::empty());
    }
}

proof fn lemma_lowered_args_typed_upto(ts: Seq<WitType>, vs: Seq<WasmValue>, ptrs: Seq<i32>, n: int)
    requires
        0 <= n <= ts.len(),
        ts.len() <= vs.len(),
        forall|i: int| 0 <= i < ts.len() ==> arg_fits(#[trigger] ts[i], vs[i]),
    ensures
        raw_fits_spec(flat_param_types(ts, n), lowered_args(ts, vs, ptrs, n)),
    decreases n,
{
    if n > 0 {
        lemma_lowered_args_typed_upto(ts, vs, ptrs, n - 1);
        let prev = lowered_args(ts, vs, ptrs, n - 1);
        let cur = lowered_args(ts, vs, ptrs, n);
        let fp = flat_param_types(ts, n - 1);
        let fc = flat_param_types(ts, n);
        assert(arg_fits(ts[n - 1], vs[n - 1]));
        assert forall|k: int| 0 <= k < cur.len() implies core_type_of(#[trigger] cur[k]) == Some(fc[k]) by {
            if k < prev.len() {
                assert(cur[k] == prev[k]);
                assert(fc[k] == fp[k]);
            }
        }
    }
}

/// The core arguments that an export call passes, for arguments that suit the
/// parameters, have exactly the core types of the signature that the same
/// parameter list declares, strings included, wherever the strings were placed.
pub proof fn lemma_lowered_args_typed(params: Seq<WitParam>, args: Seq<WasmValue>, ptrs: Seq<i32>)
    requires
        params.len() == args.len(),
        forall|i: int| 0 <= i < params.len() ==> arg_fits(#[trigger] params[i].ty, args[i]),
    ensures
        raw_fits_spec(
            wasm_param_types(params),
            lowered_args(param_types(params), args, ptrs, params.len() as int),
        ),
{
    let ts = param_types(params);
    assert forall|i: int| 0 <= i < ts.len() implies arg_fits(#[trigger] ts[i], args[i]) by {
        assert(ts[i] == params[i].ty);
    }
    lemma_lowered_args_typed_upto(ts, args, ptrs, ts.len() as int);
}

/// Whether the UTF-8 bytes of the string `v` lie in `mem` at `ptr`, with a
/// length that fits the `i32` it is passed as.
pub open spec fn string_at(mem: Seq<u8>, ptr: i32, v: WasmValue) -> bool {
    match v {
        WasmValue::Str(s) => {
            &&& 0 <= ptr
            &&& ptr + encode_utf8(s).len() <= mem.len()
            &&& encode_utf8(s).len() <= i32::MAX
            &&& mem.subrange(ptr as int, ptr + encode_utf8(s).len()) == encode_utf8(s)
        },
        _ => false,
    }
}

/// Whether each string argument was placed in `mem` at its pointer (the
/// pointers are taken in the order of the string parameters).
pub open spec fn strings_placed(ts: Seq<WitType>, vs: Seq<WasmValue>, ptrs: Seq<i32>, mem: Seq<u8>) -> bool {
    forall|i: int|
        0 <= i < ts.len() && ts[i] == WitType::Str ==> #[trigger] string_at(
            mem,
            ptrs[count_strs(ts, i)],
            vs[i],
        )
}

proof fn lemma_lowered_prefix(ts: Seq<WitType>, vs: Seq<WasmValue>, ptrs: Seq<i32>, n: int, m: int)
    requires
        0 <= m <= n <= ts.len(),
    ensures
        lowered_args(ts, vs, ptrs, n).len() == flat_param_types(ts, n).len(),
        lowered_args(ts, vs, ptrs, m).len() <= lowered_args(ts, vs, ptrs, n).len(),
        forall|k: int|
            0 <= k < lowered_args(ts, vs, ptrs, m).len() ==> #[trigger] lowered_args(ts, vs, ptrs, n)[k]
                == lowered_args(ts, vs, ptrs, m)[k],
    decreases n,
{
    if n > 0 {
        if m < n {
            lemma_lowered_prefix(ts, vs, ptrs, n - 1, m);
        } else {
            lemma_lowered_prefix(ts, vs, ptrs, n - 1, n - 1);
        }
        assert(param_core_types(ts[n - 1]).len() == width(ts[n - 1]));
    }
}

proof fn lemma_lift_lowered(ts: Seq<WitType>, vs: Seq<WasmValue>, ptrs: Seq<i32>, mem: Seq<u8>, i: int)
    requires
        scalars_or_strings_typed(ts, vs),
        strings_placed(ts, vs, ptrs, mem),
        0 <= i <= ts.len(),
    ensures
        lift_from(
            ts,
            lowered_args(ts, vs, ptrs, ts.len() as int),
            Some(mem),
            i,
            flat_param_types(ts, i).len() as int,
        ) == Ok::<Seq<WasmValue>, AbiError>(vs.subrange(i, vs.len() as int)),
    decreases ts.len() - i,
{
    let n = ts.len() as int;
    let raw = lowered_args(ts, vs, ptrs, n);
    if i < n {
        lemma_lift_lowered(ts, vs, ptrs, mem, i + 1);
        lemma_lowered_prefix(ts, vs, ptrs, n, i + 1);
        lemma_lowered_prefix(ts, vs, ptrs, i + 1, i);
        lemma_lowered_prefix(ts, vs, ptrs, i, i);
        let k = flat_param_types(ts, i).len() as int;
        let here = lowered_args(ts, vs, ptrs, i + 1);
        assert(param_core_types(ts[i]).len() == width(ts[i]));
        assert(flat_param_types(ts, i + 1).len() == k + width(ts[i]));
        assert(raw[k] == here[k]);
        assert(value_fits_result(vs[i], Some(ts[i])));
        if ts[i] == WitType::Str {
            assert(raw[k + 1] == here[k + 1]);
            let s = vs[i]->Str_0;
            let bytes = encode_utf8(s);
            assert(string_at(mem, ptrs[count_strs(ts, i)], vs[i]));
            let p = ptrs[count_strs(ts, i)];
            assert(raw[k] == RawVal::I32(p));
            assert(raw[k + 1] == RawVal::I32(bytes.len() as i32));
            vstd::utf8::encode_utf8_valid_utf8(s);
            vstd::utf8::encode_utf8_decode_utf8(s);
            assert(read_str_spec(mem, p as u32, (bytes.len() as i32) as u32) == Ok::<Seq<char>, AbiError>(s));
        }
        assert(lift_one(ts[i], raw, k, Some(mem)) == Ok::<WasmValue, AbiError>(vs[i]));
        assert(vs.subrange(i, vs.len() as int) =~= seq![vs[i]] + vs.subrange(i + 1, vs.len() as int));
    } else {
        assert(vs.subrange(i, vs.len() as int) =~= Seq::<WasmValue>::empty());
    }
}

/// Whether each value has the shape of the type beside it.
pub open spec fn scalars_or_strings_typed(ts: Seq<WitType>, vs: Seq<WasmValue>) -> bool {
    &&& ts.len() == vs.len()
    &&& forall|i: int| 0 <= i < ts.len() ==> value_fits_result(#[trigger] vs[i], Some(ts[i]))
}

proof fn lemma_lowering_events_prefix(ts: Seq<WitType>, vs: Seq<WasmValue>, ptrs: Seq<i32>, n: int, m: int, c: bool)
    requires
        0 <= m <= n <= ts.len(),
    ensures
        lowering_events(ts, vs, ptrs, n, c).len() == 2 * count_strs(ts, n),
        lowering_events(ts, vs, ptrs, m, c).len() <= lowering_events(ts, vs, ptrs, n, c).len(),
        forall|k: int|
            0 <= k < lowering_events(ts, vs, ptrs, m, c).len() ==> #[trigger] lowering_events(ts, vs, ptrs, n, c)[k]
                == lowering_events(ts, vs, ptrs, m, c)[k],
    decreases n,
{
    if n > 0 {
        if m < n {
            lemma_lowering_events_prefix(ts, vs, ptrs, n - 1, m, c);
        } else {
            lemma_lowering_events_prefix(ts, vs, ptrs, n - 1, n - 1, c);
        }
    }
}

/// For each string argument of an export call, the allocation made for it
/// asks the allocator for exactly the argument's UTF-8 byte length — the
/// length it is then passed with — and its bytes are written, all of them, at
/// the pointer the allocator returned, which is the pointer it is passed with.
pub proof fn lemma_string_allocation(
    ts: Seq<WitType>,
    vs: Seq<WasmValue>,
    ptrs: Seq<i32>,
    n: int,
    canonical: bool,
    i: int,
)
    requires
        0 <= i < n <= ts.len(),
        n <= vs.len(),
        ts[i] == WitType::Str,
        vs[i] is Str,
    ensures
        ({
            let s = vs[i]->Str_0;
            let len = encode_utf8(s).len() as i32;
            let p = ptrs[count_strs(ts, i)];
            let events = lowering_events(ts, vs, ptrs, n, canonical);
            let passed = lowered_args(ts, vs, ptrs, n);
            let k = flat_param_types(ts, i).len() as int;
            &&& is_call_to(
                events[2 * count_strs(ts, i)],
                if canonical {
                    "cabi_realloc"@
                } else {
                    "__malloc"@
                },
                if canonical {
                    seq![RawVal::I32(0), RawVal::I32(0), RawVal::I32(1), RawVal::I32(len)]
                } else {
                    seq![RawVal::I32(len)]
                },
            )
            &&& events[2 * count_strs(ts, i)] matches Event::Call { func: _, args: _, slots: sl, results: r } && sl == 1 && r == Some(
                seq![RawVal::I32(p)],
            )
            &&& events[2 * count_strs(ts, i) + 1] == (Event::MemWrite {
                memory: "memory"@,
                offset: p as int,
                bytes: encode_utf8(s),
                done: true,
            })
            &&& passed[k] == RawVal::I32(p)
            &&& passed[k + 1] == RawVal::I32(len)
        }),
{
    lemma_lowering_events_prefix(ts, vs, ptrs, n, i + 1, canonical);
    lemma_lowering_events_prefix(ts, vs, ptrs, i + 1, i, canonical);
    lemma_lowering_events_prefix(ts, vs, ptrs, i, i, canonical);
    lemma_lowered_prefix(ts, vs, ptrs, n, i + 1);
    lemma_lowered_prefix(ts, vs, ptrs, i + 1, i);
    lemma_lowered_prefix(ts, vs, ptrs, i, i);
    lemma_count_strs_mono(ts, i);
    let c = count_strs(ts, i);
    let here = lowering_events(ts, vs, ptrs, i + 1, canonical);
    assert(here[2 * c] == lowering_events(ts, vs, ptrs, n, canonical)[2 * c]);
    assert(here[2 * c + 1] == lowering_events(ts, vs, ptrs, n, canonical)[2 * c + 1]);
    let k = flat_param_types(ts, i).len() as int;
    let la = lowered_args(ts, vs, ptrs, i + 1);
    assert(la[k] == lowered_args(ts, vs, ptrs, n)[k]);
    assert(la[k + 1] == lowered_args(ts, vs, ptrs, n)[k + 1]);
}

/// An export with a non-string result is called with one result slot per
/// core result type of its WIT result; what it returns in that slot, if it has
/// the core type the WIT declares, decodes without error, while an empty
/// result buffer never decodes.
pub proof fn lemma_result_slots(f: WitFuncView, x: RawVal)
    requires
        f.result is Some,
        f.result != Some(WitType::Str),
        core_type_of(x) == Some(wasm_result_types(f.result)[0]),
    ensures
        export_slots(f) == 1,
        decode_result_spec(f.result, seq![x]) is Ok,
        decode_result_spec(f.result, Seq::<RawVal>::empty()) is Err,
{
}

/// The arguments of an export call survive the trip through their core
/// values: once each string argument has been written to memory at the
/// pointer it is passed with, lifting the core arguments as an import call
/// lifts them gives the arguments back, strings included.
pub proof fn lemma_args_round_trip(ts: Seq<WitType>, vs: Seq<WasmValue>, ptrs: Seq<i32>, mem: Seq<u8>)
    requires
        scalars_or_strings_typed(ts, vs),
        strings_placed(ts, vs, ptrs, mem),
    ensures
        lift_args(ts, lowered_args(ts, vs, ptrs, ts.len() as int), Some(mem)) == Ok::<
            Seq<WasmValue>,
            AbiError,
        >(vs),
{
    lemma_lift_lowered(ts, vs, ptrs, mem, 0);
    assert(vs.subrange(0, vs.len() as int) =~= vs);
}

/// Scalar arguments lowered as an export call lowers them have the core types
/// that the parameter list declares, and lifting them as an import call lifts
/// its arguments gives the same values back.
pub proof fn lemma_scalar_args_round_trip(ts: Seq<WitType>, vs: Seq<WasmValue>, mem: Option<Seq<u8>>)
    requires
        scalars_typed(ts, vs),
    ensures
        raw_fits_spec(flat_param_types(ts, ts.len() as int), lower_scalars(ts, vs, ts.len() as int)),
        lift_args(ts, lower_scalars(ts, vs, ts.len() as int), mem) == Ok::<
            Seq<WasmValue>,
            AbiError,
        >(vs),
{
    lemma_lower_scalars(ts, vs, ts.len() as int);
    let raw = lower_scalars(ts, vs, ts.len() as int);
    assert forall|k: int| 0 <= k < raw.len() implies core_type_of(#[trigger] raw[k]) == Some(
        flat_param_types(ts, ts.len() as int)[k],
    ) by {
        assert(ts[k] != WitType::Str && value_fits_result(vs[k], Some(ts[k])));
    }
    lemma_lift_scalars(ts, vs, mem, 0);
    assert(vs.subrange(0, vs.len() as int) =~= vs);
}

} // verus!
