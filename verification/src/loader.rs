//! Loading: what a source string names (a URL or a path, with an optional
//! `@N` version pin), where its companion `.wit` lives, which ABI a module
//! uses, instantiation, and dispatching calls to a loaded module's exports.
use vstd::prelude::*;
use crate::abi::{
    args_fit, call_component_export, call_raw_export, call_wasic_export, component_call_error, component_run,
    raw_call_error, raw_lowerable, raw_run, value_fits_result, wasic_call_error, wasic_run, AbiError, RawVal,
    WasmVal,
};
use crate::runtime::{
    error_message, export_names_of, get_global, instantiate_module, read_global, Event, InstantiateFailure,
    ModuleInstance,
};
use crate::text::{
    append_char, append_range, chars_of, last_index, last_index_before, last_occurrence,
    last_occurrence_before,
    last_occurrence_exec, occurs_at, occurs_at_exec, string_of, string_of_range,
};
use crate::wit_parser::{ParsedWit, ParsedWitView, WitFuncView};
use wasmtime::Linker;

verus! {

// ── Sources ───────────────────────────────────────────────────────────────────

pub open spec fn lit_http() -> Seq<char> {
    seq!['h', 't', 't', 'p', ':', '/', '/']
}

pub open spec fn lit_https() -> Seq<char> {
    seq!['h', 't', 't', 'p', 's', ':', '/', '/']
}

pub open spec fn lit_dot_wasm() -> Seq<char> {
    seq!['.', 'w', 'a', 's', 'm']
}

pub open spec fn lit_dot_wit() -> Seq<char> {
    seq!['.', 'w', 'i', 't']
}

/// Whether a source names a URL: it starts with `http://` or `https://`.
pub open spec fn is_url_spec(s: Seq<char>) -> bool {
    occurs_at(s, 0, lit_http()) || occurs_at(s, 0, lit_https())
}

/// Whether `s` starts with `http://` or `https://`.
pub fn is_url(s: &str) -> (r: bool)
    ensures
        r == is_url_spec(s@),
{
    let c = chars_of(s);
    let http = ['h', 't', 't', 'p', ':', '/', '/'];
    let https = ['h', 't', 't', 'p', 's', ':', '/', '/'];
    proof {
        assert(http@ =~= lit_http());
        assert(https@ =~= lit_https());
    }
    occurs_at_exec(&c, 0, &http) || occurs_at_exec(&c, 0, &https)
}

/// Where the companion WIT of a module source lives: the last `.wasm` in the
/// source becomes `.wit`; a source without `.wasm` gets `.wit` appended.
pub open spec fn wit_source_spec(s: Seq<char>) -> Seq<char> {
    let i = last_occurrence(s, lit_dot_wasm());
    if i >= 0 {
        s.subrange(0, i) + lit_dot_wit() + s.subrange(i + 5, s.len() as int)
    } else {
        s + lit_dot_wit()
    }
}

/// The companion `.wit` source of a module source.
pub fn derive_wit_source(source: &str) -> (r: String)
    ensures
        r@ == wit_source_spec(source@),
{
    let c = chars_of(source);
    let dot_wasm = ['.', 'w', 'a', 's', 'm'];
    proof {
        assert(dot_wasm@ =~= lit_dot_wasm());
    }
    let found = last_occurrence_exec(&c, &dot_wasm);
    let mut r = String::new();
    match found {
        Some(i) => {
            proof {
                crate::text::lemma_last_occurrence(c@, lit_dot_wasm(), c@.len() + 1int);
            }
            append_range(&mut r, &c, 0, i);
            append_char(&mut r, '.');
            append_char(&mut r, 'w');
            append_char(&mut r, 'i');
            append_char(&mut r, 't');
            let ghost mid = r@;
            append_range(&mut r, &c, i + 5, c.len());
            proof {
                assert(mid =~= c@.subrange(0, i as int) + lit_dot_wit());
                assert(r@ =~= wit_source_spec(source@));
            }
        },
        None => {
            append_range(&mut r, &c, 0, c.len());
            append_char(&mut r, '.');
            append_char(&mut r, 'w');
            append_char(&mut r, 'i');
            append_char(&mut r, 't');
            proof {
                assert(c@.subrange(0, c@.len() as int) =~= c@);
                assert(r@ =~= wit_source_spec(source@));
            }
        },
    }
    r
}

// ── Version pins ──────────────────────────────────────────────────────────────

pub open spec fn is_digit(c: char) -> bool {
    '0' <= c && c <= '9'
}

/// The decimal value of the first `n` digits of `d`.
pub open spec fn digits_value(d: Seq<char>, n: int) -> int
    decreases n,
{
    if n <= 0 {
        0
    } else {
        digits_value(d, n - 1) * 10 + (d[n - 1] as int - '0' as int)
    }
}

/// The `i32` that the digits `d` denote, negated when `neg`: `d` must be a
/// non-empty run of ASCII digits and the value must fit.
pub open spec fn signed_digits_value(neg: bool, d: Seq<char>) -> Option<i32> {
    let v = if neg {
        -digits_value(d, d.len() as int)
    } else {
        digits_value(d, d.len() as int)
    };
    if d.len() == 0 || !(forall|k: int| 0 <= k < d.len() ==> is_digit(#[trigger] d[k])) {
        None
    } else if i32::MIN <= v <= i32::MAX {
        Some(v as i32)
    } else {
        None
    }
}

/// What `i32::from_str` reads from `t`: an optional `+` or `-` sign followed by
/// at least one ASCII digit and nothing else, whose value fits in an `i32`.
pub open spec fn parse_i32_spec(t: Seq<char>) -> Option<i32> {
    if t.len() > 0 && (t[0] == '-' || t[0] == '+') {
        signed_digits_value(t[0] == '-', t.subrange(1, t.len() as int))
    } else {
        signed_digits_value(false, t)
    }
}

proof fn lemma_digits_value_step(d: Seq<char>, n: int)
    requires
        0 <= n,
        n + 1 <= d.len(),
        forall|k: int| 0 <= k < n + 1 ==> is_digit(#[trigger] d[k]),
    ensures
        0 <= digits_value(d, n) <= digits_value(d, n + 1),
    decreases n,
{
    if n > 0 {
        lemma_digits_value_step(d, n - 1);
    }
}

const VALUE_CAP: u64 = 2147483649;

/// Parse the decimal `i32` in `t[a..]`, as `i32::from_str` does.
fn parse_i32_chars(t: &Vec<char>, a: usize) -> (r: Option<i32>)
    requires
        a <= t.len(),
    ensures
        r == parse_i32_spec(t@.subrange(a as int, t@.len() as int)),
{
    let ghost ts = t@.subrange(a as int, t@.len() as int);
    let mut i = a;
    let mut neg = false;
    if i < t.len() && (t[i] == '-' || t[i] == '+') {
        neg = t[i] == '-';
        i = i + 1;
    }
    let ghost d = t@.subrange(i as int, t@.len() as int);
    proof {
        if ts.len() > 0 && (ts[0] == '-' || ts[0] == '+') {
            assert(d =~= ts.subrange(1, ts.len() as int));
        } else {
            assert(d =~= ts);
        }
        assert(parse_i32_spec(ts) == signed_digits_value(neg, d));
    }
    if i == t.len() {
        return None;
    }
    let start = i;
    let mut acc: u64 = 0;
    while i < t.len()
        invariant
            start <= i <= t.len(),
            ts == t@.subrange(a as int, t@.len() as int),
            d == t@.subrange(start as int, t@.len() as int),
            d.len() > 0,
            parse_i32_spec(ts) == signed_digits_value(neg, d),
            forall|k: int| 0 <= k < i - start ==> is_digit(#[trigger] d[k]),
            acc <= VALUE_CAP,
            acc < VALUE_CAP ==> acc == digits_value(d, i - start),
            acc == VALUE_CAP ==> digits_value(d, i - start) >= VALUE_CAP,
        decreases t.len() - i,
    {
        let c = t[i];
        if !('0' <= c && c <= '9') {
            proof {
                assert(!is_digit(d[i - start]));
            }
            return None;
        }
        let digit: u64 = (c as u32 - '0' as u32) as u64;
        proof {
            assert(d[i - start] == c);
            assert(digits_value(d, i - start + 1) == digits_value(d, i - start) * 10 + digit);
            lemma_digits_value_step(d, i - start);
        }
        if acc < VALUE_CAP {
            let next = acc * 10 + digit;
            acc = if next >= VALUE_CAP {
                VALUE_CAP
            } else {
                next
            };
        }
        i = i + 1;
    }
    proof {
        assert(i - start == d.len());
    }
    if neg {
        if acc > 2147483648 {
            None
        } else if acc == 2147483648 {
            Some(i32::MIN)
        } else {
            Some(-(acc as i32))
        }
    } else {
        if acc > 2147483647 {
            None
        } else {
            Some(acc as i32)
        }
    }
}

/// The source without a trailing `@N` pin, and `N`: the pin is the text after
/// the last `@` when that text reads as an `i32`.
pub open spec fn version_suffix_spec(s: Seq<char>) -> (Seq<char>, Option<i32>) {
    let at = last_index_before(s, '@', s.len() as int);
    if at >= 0 && parse_i32_spec(s.subrange(at + 1, s.len() as int)) is Some {
        (s.subrange(0, at), parse_i32_spec(s.subrange(at + 1, s.len() as int)))
    } else {
        (s, None)
    }
}

/// Split a trailing `@N` version pin off a source.
pub fn parse_version_suffix(s: &str) -> (r: (String, Option<i32>))
    ensures
        (r.0@, r.1) == version_suffix_spec(s@),
{
    let c = chars_of(s);
    match last_index(&c, '@') {
        Some(at) => match parse_i32_chars(&c, at + 1) {
            Some(n) => (string_of_range(&c, 0, at), Some(n)),
            None => (string_of(&c), None),
        },
        None => (string_of(&c), None),
    }
}

// ── ABI detection ─────────────────────────────────────────────────────────────

/// Which string-passing convention a module follows.
#[derive(Debug, Clone, Copy, PartialEq, Eq, Structural)]
pub enum AbiKind {
    /// The Canonical ABI: the module exports `cabi_realloc`.
    Component,
    /// The wasic convention: `__malloc` and string-return globals.
    Wasic,
}

pub open spec fn lit_cabi_realloc() -> Seq<char> {
    seq!['c', 'a', 'b', 'i', '_', 'r', 'e', 'a', 'l', 'l', 'o', 'c']
}

/// A module whose exports include `cabi_realloc` is a component-style module.
pub open spec fn abi_of_names(names: Seq<Seq<char>>) -> AbiKind {
    if names.contains(lit_cabi_realloc()) {
        AbiKind::Component
    } else {
        AbiKind::Wasic
    }
}

pub open spec fn names_view(names: Seq<String>) -> Seq<Seq<char>> {
    names.map_values(|n: String| n@)
}

/// The ABI of a module with exports named `names`.
pub fn abi_from_export_names(names: &[String]) -> (k: AbiKind)
    ensures
        k == abi_of_names(names_view(names@)),
{
    let ghost views = names_view(names@);
    let target = ['c', 'a', 'b', 'i', '_', 'r', 'e', 'a', 'l', 'l', 'o', 'c'];
    proof {
        assert(target@ =~= lit_cabi_realloc());
    }
    let mut i: usize = 0;
    while i < names.len()
        invariant
            i <= names@.len(),
            views == names_view(names@),
            target@ == lit_cabi_realloc(),
            forall|j: int| 0 <= j < i ==> views[j] != lit_cabi_realloc(),
        decreases names.len() - i,
    {
        let c = chars_of(names[i].as_str());
        if c.len() == target.len() && occurs_at_exec(&c, 0, &target) {
            proof {
                assert(c@.subrange(0, 12) =~= c@);
                assert(views[i as int] == names@[i as int]@);
                assert(views[i as int] == lit_cabi_realloc());
            }
            return AbiKind::Component;
        }
        proof {
            assert(views[i as int] == names@[i as int]@);
            if views[i as int] == lit_cabi_realloc() {
                assert(c@.subrange(0, 12) =~= c@);
            }
        }
        i = i + 1;
    }
    AbiKind::Wasic
}

// ── Instantiation ─────────────────────────────────────────────────────────────

/// Why loading a module failed.
#[derive(Debug, Clone, PartialEq, Eq)]
pub enum LoadError {
    /// The bytes are not a valid module (the engine's message).
    Compile(String),
    /// Instantiation failed, e.g. an import could not be resolved.
    Instantiate(String),
    /// A version was pinned but the module exports no `version` global.
    NoVersionGlobal(i32),
    /// The `version` global does not hold an `i32`.
    VersionNotI32(i32),
    /// The module's version is not the pinned one.
    VersionMismatch { actual: i32, required: i32 },
}

/// The outcome of checking a version pin against the module's `version`
/// global (`None` when the module has no such global).
pub open spec fn version_check_spec(required: Option<i32>, actual: Option<RawVal>) -> Result<
    (),
    LoadError,
> {
    match required {
        None => Ok(()),
        Some(req) => match actual {
            None => Err(LoadError::NoVersionGlobal(req)),
            Some(RawVal::I32(a)) => if a == req {
                Ok(())
            } else {
                Err(LoadError::VersionMismatch { actual: a, required: req })
            },
            Some(_) => Err(LoadError::VersionNotI32(req)),
        },
    }
}

/// Check a version pin against the value of the module's `version` global.
pub fn check_version(required: Option<i32>, actual: Option<RawVal>) -> (r: Result<(), LoadError>)
    ensures
        r == version_check_spec(required, actual),
{
    match required {
        None => Ok(()),
        Some(req) => match actual {
            None => Err(LoadError::NoVersionGlobal(req)),
            Some(RawVal::I32(a)) => if a == req {
                Ok(())
            } else {
                Err(LoadError::VersionMismatch { actual: a, required: req })
            },
            Some(_) => Err(LoadError::VersionNotI32(req)),
        },
    }
}

/// An instantiated module with its store, the WIT it was loaded with (if any)
/// and its ABI.
pub struct LoadedModule {
    module: ModuleInstance,
    parsed: Option<ParsedWit>,
    abi: AbiKind,
}

pub open spec fn wit_view(p: Option<ParsedWit>) -> Option<ParsedWitView> {
    match p {
        Some(w) => Some(w@),
        None => None,
    }
}

/// Compile and instantiate a module from its bytes (binary or text) with the
/// imports that `linker` defines, in a fresh store of the linker's engine; then
/// check the version pin, if any. On success the module carries `parsed`, and
/// its ABI is the one its export names show (the Canonical ABI exactly when it
/// exports `cabi_realloc`).
pub fn instantiate_from_bytes(
    linker: &Linker<()>,
    wasm_bytes: &[u8],
    parsed: Option<ParsedWit>,
    required_version: Option<i32>,
) -> (r: Result<LoadedModule, LoadError>)
    ensures
        r matches Ok(m) ==> m.wit() == wit_view(parsed),
        r matches Ok(m) ==> m.abi_kind() == abi_of_names(export_names_of(wasm_bytes@)),
        r matches Ok(m) ==> m.log() == match required_version {
            None => Seq::<Event>::empty(),
            Some(n) => seq![Event::GlobalRead { global: "version"@, value: RawVal::I32(n) }],
        },
        r matches Err(LoadError::NoVersionGlobal(n)) ==> required_version == Some(n),
        r matches Err(LoadError::VersionNotI32(n)) ==> required_version == Some(n),
        r matches Err(LoadError::VersionMismatch { actual, required }) ==> required_version == Some(
            required,
        ) && actual != required,
{
    let (mut module, names) = match instantiate_module(linker, wasm_bytes) {
        Ok(x) => x,
        Err(InstantiateFailure::Compile(e)) => {
            return Err(LoadError::Compile(error_message(&e)));
        },
        Err(InstantiateFailure::Instantiate(e)) => {
            return Err(LoadError::Instantiate(error_message(&e)));
        },
    };
    let abi = abi_from_export_names(names.as_slice());
    if required_version.is_some() {
        let actual = match get_global(&mut module, "version") {
            Some(g) => Some(read_global(&mut module, &g)),
            None => None,
        };
        check_version(required_version, actual)?;
    }
    Ok(LoadedModule { module, parsed, abi })
}

/// The position of the first function in `fs` whose snake_case name is
/// `name`, or -1.
pub open spec fn find_by_snake_name(fs: Seq<WitFuncView>, name: Seq<char>, i: int) -> int
    decreases fs.len() - i,
{
    if i < 0 || i >= fs.len() {
        -1
    } else if fs[i].snake_name == name {
        i
    } else {
        find_by_snake_name(fs, name, i + 1)
    }
}

proof fn lemma_find_by_snake_name(fs: Seq<WitFuncView>, name: Seq<char>, i: int)
    requires
        0 <= i <= fs.len(),
    ensures
        find_by_snake_name(fs, name, i) == -1 || (i <= find_by_snake_name(fs, name, i) < fs.len()
            && fs[find_by_snake_name(fs, name, i)].snake_name == name),
        find_by_snake_name(fs, name, i) == -1 <==> forall|j: int|
            i <= j < fs.len() ==> #[trigger] fs[j].snake_name != name,
    decreases fs.len() - i,
{
    if i < fs.len() {
        lemma_find_by_snake_name(fs, name, i + 1);
    }
}

impl LoadedModule {
    /// The WIT this module was loaded with, if any.
    pub closed spec fn wit(&self) -> Option<ParsedWitView> {
        wit_view(self.parsed)
    }

    /// The ABI this module was detected to follow.
    pub closed spec fn abi_kind(&self) -> AbiKind {
        self.abi
    }

    /// What the library has done with the module so far: its export calls,
    /// global reads and memory accesses, in order.
    pub closed spec fn log(&self) -> Seq<Event> {
        self.module.log()
    }

    /// The WIT this module was loaded with, if any.
    pub fn parsed(&self) -> (r: &Option<ParsedWit>)
        ensures
            wit_view(*r) == self.wit(),
    {
        &self.parsed
    }

    /// The ABI this module follows.
    pub fn abi(&self) -> (r: AbiKind)
        ensures
            r == self.abi_kind(),
    {
        self.abi
    }

    /// The position of the export that `name` (snake_case) calls.
    pub fn find_export(&self, name: &str) -> (r: Option<usize>)
        requires
            self.wit() is Some,
        ensures
            match r {
                Some(i) => i as int == find_by_snake_name(self.wit()->0.exports, name@, 0),
                None => find_by_snake_name(self.wit()->0.exports, name@, 0) == -1,
            },
    {
        let p = match &self.parsed {
            Some(p) => p,
            None => {
                return None;
            },
        };
        let target = chars_of(name);
        let mut i: usize = 0;
        while i < p.exports.len()
            invariant
                i <= p.exports@.len(),
                self.wit() == Some(p@),
                target@ == name@,
                find_by_snake_name(p@.exports, name@, 0) == find_by_snake_name(
                    p@.exports,
                    name@,
                    i as int,
                ),
            decreases p.exports.len() - i,
        {
            let c = chars_of(p.exports[i].snake_name.as_str());
            if c.len() == target.len() && occurs_at_exec(&c, 0, target.as_slice()) {
                proof {
                    assert(c@.subrange(0, c@.len() as int) =~= c@);
                    assert(p@.exports[i as int].snake_name == name@);
                }
                return Some(i);
            }
            proof {
                if p@.exports[i as int].snake_name == name@ {
                    assert(c@.subrange(0, c@.len() as int) =~= c@);
                }
            }
            i = i + 1;
        }
        None
    }

    /// Call an export with dynamically-typed values. With WIT, `name` is the
    /// snake_case export name, looked up among the WIT exports (the first one of
    /// that name), and the call follows the module's ABI; without WIT, `name` is
    /// the raw export name and only numbers and `bool`s pass.
    pub fn call_dyn(&mut self, name: &str, args: &[WasmVal]) -> (r: Result<WasmVal, AbiError>)
        ensures
            match old(self).wit() {
                Some(w) => {
                    let i = find_by_snake_name(w.exports, name@, 0);
                    &&& (i == -1 <==> (r matches Err(AbiError::NoWitExport(n)) && n@ == name@))
                    &&& (i == -1 ==> *final(self) == *old(self))
                    &&& (r matches Ok(v) ==> i >= 0 && value_fits_result(v@, w.exports[i].result)
                        && args_fit(w.exports[i].params, args@))
                    &&& (r matches Err(e) ==> (i >= 0 ==> match old(self).abi_kind() {
                        AbiKind::Component => component_call_error(w.exports[i], args@, e),
                        AbiKind::Wasic => wasic_call_error(w.exports[i], args@, e),
                    }))
                    &&& (r matches Ok(v) ==> match old(self).abi_kind() {
                        AbiKind::Component => exists|ptrs: Seq<i32>, res: Seq<RawVal>, rb: i32, data: Seq<u8>|
                            #[trigger] component_run(w.exports[i], args@, old(self).log(), final(self).log(), v@, ptrs, res, rb, data),
                        AbiKind::Wasic => exists|ptrs: Seq<i32>, res: Seq<RawVal>, p: i32, l: i32, data: Seq<u8>|
                            #[trigger] wasic_run(w.exports[i], args@, old(self).log(), final(self).log(), v@, ptrs, res, p, l, data),
                    })
                },
                None => {
                    &&& (r matches Ok(v) ==> raw_lowerable(args@) && !(v@ is Bool) && !(v@ is Str))
                    &&& (r matches Err(e) ==> raw_call_error(name@, args@, e))
                    &&& (r matches Ok(v) ==> exists|res: Seq<RawVal>|
                        #[trigger] raw_run(name@, args@, old(self).log(), final(self).log(), v@, res))
                    &&& (r matches Err(AbiError::RawExportNotFound(_)) ==> final(self).log() == old(self).log())
                    &&& (r matches Err(AbiError::StringsNeedWit) ==> final(self).log() == old(self).log())
                },
            },
            final(self).wit() == old(self).wit(),
            final(self).abi_kind() == old(self).abi_kind(),
    {
        let ghost l0 = self.log();
        if self.parsed.is_none() {
            let r = call_raw_export(&mut self.module, name, args);
            proof {
                if r is Ok {
                    let res = choose|res: Seq<RawVal>| raw_run(name@, args@, l0, self.log(), r->Ok_0@, res);
                    assert(raw_run(name@, args@, l0, self.log(), r->Ok_0@, res));
                }
            }
            return r;
        }
        let found = self.find_export(name);
        proof {
            lemma_find_by_snake_name(self.wit()->0.exports, name@, 0);
        }
        match found {
            None => Err(AbiError::NoWitExport(string_of(&chars_of(name)))),
            Some(i) => match &self.parsed {
                Some(p) => {
                    let func = &p.exports[i];
                    proof {
                        assert(func@ == old(self).wit()->0.exports[i as int]);
                    }
                    match self.abi {
                        AbiKind::Component => {
                            let r = call_component_export(&mut self.module, func, args);
                            proof {
                                if r is Ok {
                                    let (ptrs, res, rb, data) = choose|
                                        ptrs: Seq<i32>,
                                        res: Seq<RawVal>,
                                        rb: i32,
                                        data: Seq<u8>,
                                    | component_run(func@, args@, l0, self.log(), r->Ok_0@, ptrs, res, rb, data);
                                    assert(component_run(func@, args@, l0, self.log(), r->Ok_0@, ptrs, res, rb, data));
                                }
                            }
                            r
                        },
                        AbiKind::Wasic => {
                            let r = call_wasic_export(&mut self.module, func, args);
                            proof {
                                if r is Ok {
                                    let (ptrs, res, p, l, data) = choose|
                                        ptrs: Seq<i32>,
                                        res: Seq<RawVal>,
                                        p: i32,
                                        l: i32,
                                        data: Seq<u8>,
                                    | wasic_run(func@, args@, l0, self.log(), r->Ok_0@, ptrs, res, p, l, data);
                                    assert(wasic_run(func@, args@, l0, self.log(), r->Ok_0@, ptrs, res, p, l, data));
                                }
                            }
                            r
                        },
                    }
                },
                None => Err(AbiError::NoWitExport(name.to_string())),
            },
        }
    }
}

// ── Laws ──────────────────────────────────────────────────────────────────────

/// The decimal digit character for `d` in `0..10`.
pub open spec fn digit_char(d: int) -> char {
    if d == 0 {
        '0'
    } else if d == 1 {
        '1'
    } else if d == 2 {
        '2'
    } else if d == 3 {
        '3'
    } else if d == 4 {
        '4'
    } else if d == 5 {
        '5'
    } else if d == 6 {
        '6'
    } else if d == 7 {
        '7'
    } else if d == 8 {
        '8'
    } else {
        '9'
    }
}

/// The decimal digits of `n`, without leading zeros.
pub open spec fn decimal_text(n: nat) -> Seq<char>
    decreases n,
{
    if n < 10 {
        seq![digit_char(n as int)]
    } else {
        decimal_text(n / 10).push(digit_char((n % 10) as int))
    }
}

/// How `n` is written in decimal, with a `-` when it is negative.
pub open spec fn i32_text(n: i32) -> Seq<char> {
    if n < 0 {
        seq!['-'] + decimal_text((-n) as nat)
    } else {
        decimal_text(n as nat)
    }
}

proof fn lemma_digits_value_prefix(d: Seq<char>, e: Seq<char>, n: int)
    requires
        0 <= n <= d.len(),
        n <= e.len(),
        forall|k: int| 0 <= k < n ==> d[k] == e[k],
    ensures
        digits_value(d, n) == digits_value(e, n),
    decreases n,
{
    if n > 0 {
        lemma_digits_value_prefix(d, e, n - 1);
    }
}

proof fn lemma_digit_char(x: int)
    requires
        0 <= x < 10,
    ensures
        is_digit(digit_char(x)),
        digit_char(x) as int - '0' as int == x,
{
}

proof fn lemma_decimal_text(n: nat)
    ensures
        decimal_text(n).len() >= 1,
        forall|k: int| 0 <= k < decimal_text(n).len() ==> is_digit(#[trigger] decimal_text(n)[k]),
        digits_value(decimal_text(n), decimal_text(n).len() as int) == n,
    decreases n,
{
    if n < 10 {
        lemma_digit_char(n as int);
        assert(digits_value(decimal_text(n), 0) == 0);
    } else {
        let q = n / 10;
        let d = decimal_text(q);
        lemma_decimal_text(q);
        lemma_digit_char((n % 10) as int);
        let t = decimal_text(n);
        assert(t == d.push(digit_char((n % 10) as int)));
        lemma_digits_value_prefix(t, d, d.len() as int);
        assert(digits_value(t, t.len() as int) == digits_value(t, d.len() as int) * 10 + (t[d.len() as int] as int - '0' as int));
        assert(q * 10 + n % 10 == n);
    }
}

proof fn lemma_last_at(p: Seq<char>, t: Seq<char>, j: int)
    requires
        forall|k: int| 0 <= k < t.len() ==> t[k] != '@',
        p.len() + 1 <= j <= p.len() + 1 + t.len(),
    ensures
        last_index_before(p + seq!['@'] + t, '@', j) == p.len(),
    decreases j,
{
    let s = p + seq!['@'] + t;
    if j > p.len() + 1 {
        assert(s[j - 1] == t[j - 1 - p.len() - 1]);
        lemma_last_at(p, t, j - 1);
    } else {
        assert(s[j - 1] == '@');
    }
}

/// A source pinned with `@N`, where `N` is written in decimal, is read as the
/// source before the pin and the version `N`, whatever `@`s the source itself
/// holds.
pub proof fn lemma_version_pin_round_trip(p: Seq<char>, n: i32)
    ensures
        version_suffix_spec(p + seq!['@'] + i32_text(n)) == (p, Some(n)),
{
    let t = i32_text(n);
    let s = p + seq!['@'] + t;
    let m: nat = if n < 0 {
        (-n) as nat
    } else {
        n as nat
    };
    lemma_decimal_text(m);
    let d = decimal_text(m);
    assert forall|k: int| 0 <= k < t.len() implies t[k] != '@' by {
        if n < 0 && k > 0 {
            assert(t[k] == d[k - 1]);
        }
    }
    lemma_last_at(p, t, s.len() as int);
    assert(s.subrange(p.len() + 1int, s.len() as int) =~= t);
    assert(s.subrange(0, p.len() as int) =~= p);
    if n < 0 {
        assert(t.subrange(1, t.len() as int) =~= d);
        assert(parse_i32_spec(t) == signed_digits_value(true, d));
    } else {
        assert(is_digit(t[0]));
        assert(parse_i32_spec(t) == signed_digits_value(false, d));
    }
}

proof fn lemma_no_at(s: Seq<char>, j: int)
    requires
        forall|k: int| 0 <= k < s.len() ==> s[k] != '@',
        0 <= j <= s.len(),
    ensures
        last_index_before(s, '@', j) == -1,
    decreases j,
{
    if j > 0 {
        lemma_no_at(s, j - 1);
    }
}

/// A source without `@` carries no version pin.
pub proof fn lemma_unpinned_source(s: Seq<char>)
    requires
        forall|k: int| 0 <= k < s.len() ==> s[k] != '@',
    ensures
        version_suffix_spec(s) == (s, None::<i32>),
{
    lemma_no_at(s, s.len() as int);
}

proof fn lemma_last_dot_wasm(p: Seq<char>, j: int)
    requires
        p.len() + 1 <= j <= p.len() + 6,
    ensures
        last_occurrence_before(p + lit_dot_wasm(), lit_dot_wasm(), j) == p.len(),
    decreases j,
{
    let s = p + lit_dot_wasm();
    if j > p.len() + 1 {
        assert(!occurs_at(s, j - 1, lit_dot_wasm()));
        lemma_last_dot_wasm(p, j - 1);
    } else {
        assert(s.subrange(p.len() as int, p.len() + 5int) =~= lit_dot_wasm());
    }
}

/// The companion WIT of `NAME.wasm` is `NAME.wit`.
pub proof fn lemma_wit_source_of_wasm(p: Seq<char>)
    ensures
        wit_source_spec(p + lit_dot_wasm()) == p + lit_dot_wit(),
{
    let s = p + lit_dot_wasm();
    lemma_last_dot_wasm(p, s.len() + 1int);
    assert(s.subrange(0, p.len() as int) =~= p);
    assert(s.subrange(p.len() + 5int, s.len() as int) =~= Seq::<char>::empty());
    assert(p + lit_dot_wit() + Seq::<char>::empty() =~= p + lit_dot_wit());
}

/// A module is taken for a Canonical-ABI module exactly when one of its export
/// names, wherever it stands in the list, is `cabi_realloc`; adding that name
/// to any list of names makes it one.
pub proof fn lemma_abi_detection(names: Seq<Seq<char>>)
    ensures
        (abi_of_names(names) == AbiKind::Component) <==> (exists|i: int|
            0 <= i < names.len() && #[trigger] names[i] == seq![
                'c', 'a', 'b', 'i', '_', 'r', 'e', 'a', 'l', 'l', 'o', 'c'
            ]),
        abi_of_names(names.push(seq!['c', 'a', 'b', 'i', '_', 'r', 'e', 'a', 'l', 'l', 'o', 'c']))
            == AbiKind::Component,
{
    let lit = seq!['c', 'a', 'b', 'i', '_', 'r', 'e', 'a', 'l', 'l', 'o', 'c'];
    assert(lit =~= lit_cabi_realloc());
    let pushed = names.push(lit);
    assert(pushed[names.len() as int] == lit);
    assert(pushed.contains(lit));
}

} // verus!
