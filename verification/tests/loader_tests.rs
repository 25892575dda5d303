//! Sources, version pins, ABI detection, and calls into instantiated modules
//! (written in the text format) through each ABI and without WIT.

use universal_wasm_loader::abi::{AbiError, RawVal, WasmVal};
use universal_wasm_loader::loader::{
    abi_from_export_names, check_version, derive_wit_source, instantiate_from_bytes, is_url,
    parse_version_suffix, AbiKind, LoadError, LoadedModule,
};
use universal_wasm_loader::wit_parser::{parse_wit, WitType};
use wasmtime::{Config, Engine, Linker};

fn small_engine() -> Engine {
    let mut config = Config::new();
    config.memory_reservation(1 << 24);
    config.memory_guard_size(1 << 16);
    config.memory_reservation_for_growth(1 << 16);
    Engine::new(&config).unwrap()
}

fn try_load(wat: &str, wit: Option<&str>, version: Option<i32>) -> Result<LoadedModule, LoadError> {
    let engine = small_engine();
    let linker: Linker<()> = Linker::new(&engine);
    instantiate_from_bytes(&linker, wat.as_bytes(), wit.map(parse_wit), version)
}

fn load(wat: &str, wit: Option<&str>) -> LoadedModule {
    try_load(wat, wit, None).unwrap()
}

fn s(x: &str) -> WasmVal {
    WasmVal::Str(x.to_string())
}

// ── Sources ──────────────────────────────────────────────────────────────────

#[test]
fn url_prefixes() {
    assert!(is_url("http://example.com/a.wasm"));
    assert!(is_url("https://example.com/a.wasm"));
    assert!(!is_url("ftp://example.com/a.wasm"));
    assert!(!is_url("tests/math_50.wasm"));
    assert!(!is_url("http:/x"));
    assert!(!is_url(" http://x"));
    assert!(!is_url(""));
}

#[test]
fn wit_beside_wasm() {
    assert_eq!(derive_wit_source("tests/math_50.wasm"), "tests/math_50.wit");
    assert_eq!(
        derive_wit_source("https://h/x.wasm?raw=1"),
        "https://h/x.wit?raw=1"
    );
    // The last `.wasm` is the one replaced.
    assert_eq!(derive_wit_source("a.wasm/b.wasm"), "a.wasm/b.wit");
    assert_eq!(derive_wit_source("module"), "module.wit");
    assert_eq!(derive_wit_source(""), ".wit");
}

#[test]
fn version_pins() {
    assert_eq!(parse_version_suffix("m.wasm@2"), ("m.wasm".to_string(), Some(2)));
    assert_eq!(parse_version_suffix("m.wasm@-5"), ("m.wasm".to_string(), Some(-5)));
    assert_eq!(parse_version_suffix("m.wasm@+7"), ("m.wasm".to_string(), Some(7)));
    assert_eq!(parse_version_suffix("a@b@12"), ("a@b".to_string(), Some(12)));
    assert_eq!(parse_version_suffix("@0"), (String::new(), Some(0)));
}

#[test]
fn version_pins_that_are_not() {
    assert_eq!(parse_version_suffix("m.wasm"), ("m.wasm".to_string(), None));
    assert_eq!(parse_version_suffix("m@x"), ("m@x".to_string(), None));
    assert_eq!(parse_version_suffix("m@"), ("m@".to_string(), None));
    assert_eq!(parse_version_suffix("m@-"), ("m@-".to_string(), None));
    assert_eq!(parse_version_suffix("m@1 "), ("m@1 ".to_string(), None));
    assert_eq!(parse_version_suffix("a@1@x"), ("a@1@x".to_string(), None));
}

#[test]
fn version_pin_limits() {
    assert_eq!(parse_version_suffix("m@2147483647"), ("m".to_string(), Some(i32::MAX)));
    assert_eq!(parse_version_suffix("m@-2147483648"), ("m".to_string(), Some(i32::MIN)));
    assert_eq!(parse_version_suffix("m@2147483648"), ("m@2147483648".to_string(), None));
    assert_eq!(parse_version_suffix("m@-2147483649"), ("m@-2147483649".to_string(), None));
    assert_eq!(
        parse_version_suffix("m@99999999999999999999999"),
        ("m@99999999999999999999999".to_string(), None)
    );
    assert_eq!(parse_version_suffix("m@007"), ("m".to_string(), Some(7)));
}

#[test]
fn version_pin_round_trip() {
    for n in [0, 1, 42, -42, i32::MAX, i32::MIN] {
        let src = format!("dir@x/file.wasm@{n}");
        assert_eq!(parse_version_suffix(&src), ("dir@x/file.wasm".to_string(), Some(n)));
    }
}

#[test]
fn abi_by_export_names() {
    let names = |xs: &[&str]| xs.iter().map(|x| x.to_string()).collect::<Vec<String>>();
    assert_eq!(abi_from_export_names(&names(&["memory", "cabi_realloc"])), AbiKind::Component);
    assert_eq!(abi_from_export_names(&names(&["memory", "__malloc"])), AbiKind::Wasic);
    assert_eq!(abi_from_export_names(&names(&["cabi_realloc2", "xcabi_realloc"])), AbiKind::Wasic);
    assert_eq!(abi_from_export_names(&[]), AbiKind::Wasic);
}

#[test]
fn version_checks() {
    assert_eq!(check_version(None, None), Ok(()));
    assert_eq!(check_version(None, Some(RawVal::I64(1))), Ok(()));
    assert_eq!(check_version(Some(3), Some(RawVal::I32(3))), Ok(()));
    assert_eq!(
        check_version(Some(4), Some(RawVal::I32(3))),
        Err(LoadError::VersionMismatch { actual: 3, required: 4 })
    );
    assert_eq!(check_version(Some(4), None), Err(LoadError::NoVersionGlobal(4)));
    assert_eq!(check_version(Some(4), Some(RawVal::I64(4))), Err(LoadError::VersionNotI32(4)));
}

// ── Modules ──────────────────────────────────────────────────────────────────

const RAW_WAT: &str = r#"
(module
  (memory (export "memory") 1)
  (global (export "version") i32 (i32.const 3))
  (func (export "add") (param i32 i32) (result i32)
    local.get 0 local.get 1 i32.add)
  (func (export "wide") (param i64) (result i64)
    local.get 0 i64.const 1 i64.add)
  (func (export "nothing"))
  (func (export "boom") (result i32) unreachable)
  (func (export "takesText") (param i32 i32) (result i32) local.get 1))
"#;

const RAW_WIT: &str = "package t:raw;
world raw {
  export add: func(a: s32, b: s32) -> s32;
  export wide: func(a: s64) -> s64;
  export nothing: func();
  export boom: func() -> s32;
  export missing-fn: func();
  export takes-text: func(t: string) -> s32;
}
";

const COMPONENT_WAT: &str = r#"
(module
  (memory (export "memory") 1)
  (global $heap (mut i32) (i32.const 1024))
  (func (export "cabi_realloc") (param i32 i32 i32 i32) (result i32) (local $p i32)
    global.get $heap local.set $p
    global.get $heap local.get 3 i32.add global.set $heap
    local.get $p)
  (func (export "echo") (param $p i32) (param $n i32) (param $ret i32)
    local.get $ret local.get $p i32.store
    local.get $ret local.get $n i32.store offset=4)
  (func (export "strLen") (param i32 i32) (result i32)
    local.get 1)
  (func (export "isLong") (param i32 i32) (result i32)
    local.get 1 i32.const 3 i32.gt_s))
"#;

const COMPONENT_WIT: &str = "package t:comp;
world comp {
  export echo: func(s: string) -> string;
  export str-len: func(s: string) -> s32;
  export is-long: func(s: string) -> bool;
}
";

const BAD_MALLOC_WAT: &str = r#"
(module
  (memory (export "memory") 1)
  (global $next (mut i32) (i32.const 70000))
  (func (export "__malloc") (param i32) (result i32)
    global.get $next)
  (func (export "setNext") (param i32)
    local.get 0 global.set $next)
  (func (export "strLen") (param i32 i32) (result i32) local.get 1)
  (func (export "greet") (param i32 i32)))
"#;

const BAD_MALLOC_WIT: &str = "world w {
  export set-next: func(p: s32);
  export str-len: func(s: string) -> s32;
  export greet: func(s: string) -> string;
}";

#[test]
fn raw_calls_without_wit() {
    let mut m = load(RAW_WAT, None);
    assert_eq!(m.abi(), AbiKind::Wasic);
    assert!(m.parsed().is_none());
    assert_eq!(m.call_dyn("add", &[WasmVal::I32(2), WasmVal::I32(3)]), Ok(WasmVal::I32(5)));
    assert_eq!(m.call_dyn("add", &[WasmVal::Bool(true), WasmVal::I32(3)]), Ok(WasmVal::I32(4)));
    assert_eq!(m.call_dyn("wide", &[WasmVal::I64(1 << 40)]), Ok(WasmVal::I64((1 << 40) + 1)));
    assert_eq!(m.call_dyn("nothing", &[]), Ok(WasmVal::Void));
}

#[test]
fn raw_call_errors() {
    let mut m = load(RAW_WAT, None);
    assert_eq!(m.call_dyn("add", &[s("2"), WasmVal::I32(3)]), Err(AbiError::StringsNeedWit));
    assert_eq!(
        m.call_dyn("nope", &[]),
        Err(AbiError::RawExportNotFound("nope".to_string()))
    );
    assert!(matches!(m.call_dyn("boom", &[]), Err(AbiError::Call(_))));
    assert!(matches!(m.call_dyn("add", &[WasmVal::I32(1)]), Err(AbiError::Call(_))));
}

#[test]
fn wit_calls_on_wasic_module() {
    let mut m = load(RAW_WAT, Some(RAW_WIT));
    assert_eq!(m.abi(), AbiKind::Wasic);
    assert_eq!(m.find_export("add"), Some(0));
    assert_eq!(m.find_export("missing_fn"), Some(4));
    assert_eq!(m.find_export("missing-fn"), None);
    assert_eq!(m.call_dyn("add", &[WasmVal::I32(20), WasmVal::I32(22)]), Ok(WasmVal::I32(42)));
    assert_eq!(m.call_dyn("wide", &[WasmVal::I64(-1)]), Ok(WasmVal::I64(0)));
    assert_eq!(m.call_dyn("nothing", &[]), Ok(WasmVal::Void));
}

#[test]
fn wit_call_errors() {
    let mut m = load(RAW_WAT, Some(RAW_WIT));
    assert_eq!(m.call_dyn("nope", &[]), Err(AbiError::NoWitExport("nope".to_string())));
    assert_eq!(
        m.call_dyn("missing_fn", &[]),
        Err(AbiError::ExportNotFound("missingFn".to_string()))
    );
    assert_eq!(
        m.call_dyn("add", &[WasmVal::I64(1), WasmVal::I32(2)]),
        Err(AbiError::ArgTypeMismatch(WitType::S32))
    );
    assert!(matches!(m.call_dyn("boom", &[]), Err(AbiError::Call(_))));
    // A string parameter needs the module's `__malloc`.
    assert_eq!(m.call_dyn("takes_text", &[s("x")]), Err(AbiError::MallocNotExported));
}

#[test]
fn component_strings() {
    let mut m = load(COMPONENT_WAT, Some(COMPONENT_WIT));
    assert_eq!(m.abi(), AbiKind::Component);
    assert_eq!(m.call_dyn("echo", &[s("héllo")]), Ok(s("héllo")));
    assert_eq!(m.call_dyn("echo", &[s("")]), Ok(s("")));
    assert_eq!(m.call_dyn("str_len", &[s("héllo")]), Ok(WasmVal::I32(6)));
    assert_eq!(m.call_dyn("is_long", &[s("abcd")]), Ok(WasmVal::Bool(true)));
    assert_eq!(m.call_dyn("is_long", &[s("abc")]), Ok(WasmVal::Bool(false)));
    assert_eq!(
        m.call_dyn("echo", &[WasmVal::I32(1)]),
        Err(AbiError::ArgTypeMismatch(WitType::Str))
    );
}

#[test]
fn allocator_pointers_are_checked() {
    let mut m = load(BAD_MALLOC_WAT, Some(BAD_MALLOC_WIT));
    // `__malloc` hands out a pointer past the end of the one-page memory.
    assert_eq!(
        m.call_dyn("str_len", &[s("abc")]),
        Err(AbiError::StringWriteOutOfBounds(70000, 3))
    );
    assert_eq!(m.call_dyn("set_next", &[WasmVal::I32(-8)]), Ok(WasmVal::Void));
    assert_eq!(
        m.call_dyn("str_len", &[s("abc")]),
        Err(AbiError::StringWriteOutOfBounds(-8, 3))
    );
    assert_eq!(m.call_dyn("set_next", &[WasmVal::I32(100)]), Ok(WasmVal::Void));
    assert_eq!(m.call_dyn("str_len", &[s("abc")]), Ok(WasmVal::I32(3)));
    // A string result needs the return globals.
    assert_eq!(
        m.call_dyn("greet", &[s("abc")]),
        Err(AbiError::GlobalNotFound("__str_ret_ptr".to_string()))
    );
}

#[test]
fn version_pinned_loads() {
    assert!(try_load(RAW_WAT, None, Some(3)).is_ok());
    assert!(matches!(
        try_load(RAW_WAT, None, Some(4)),
        Err(LoadError::VersionMismatch { actual: 3, required: 4 })
    ));
    assert!(matches!(
        try_load(COMPONENT_WAT, None, Some(1)),
        Err(LoadError::NoVersionGlobal(1))
    ));
    let wide_version = r#"(module (global (export "version") i64 (i64.const 1)))"#;
    assert!(matches!(try_load(wide_version, None, Some(1)), Err(LoadError::VersionNotI32(1))));
    assert!(try_load(wide_version, None, None).is_ok());
}

#[test]
fn load_failures() {
    assert!(matches!(try_load("not a module", None, None), Err(LoadError::Compile(_))));
    let needs_import = r#"(module (import "env" "f" (func)))"#;
    assert!(matches!(try_load(needs_import, None, None), Err(LoadError::Instantiate(_))));
}

#[test]
fn loaded_module_keeps_its_wit() {
    let m = load(COMPONENT_WAT, Some(COMPONENT_WIT));
    let w = m.parsed().as_ref().unwrap();
    assert_eq!(w.package_name, "t:comp");
    assert_eq!(w.exports.len(), 3);
    assert_eq!(w.exports[1].camel_name, "strLen");
}

#[test]
fn allocators_need_their_signatures() {
    // A `__malloc` of another signature counts as missing.
    let wasic = r#"
(module
  (memory (export "memory") 1)
  (func (export "__malloc") (param i64) (result i32) i32.const 64)
  (func (export "strLen") (param i32 i32) (result i32) local.get 1))
"#;
    let mut m = load(wasic, Some("world w { export str-len: func(s: string) -> s32; }"));
    assert_eq!(m.call_dyn("str_len", &[s("abc")]), Err(AbiError::MallocNotExported));
    // So does a `cabi_realloc` of another signature, even for a call that
    // passes no string.
    let component = r#"
(module
  (memory (export "memory") 1)
  (func (export "cabi_realloc") (param i32) (result i32) i32.const 64)
  (func (export "twice") (param i32) (result i32) local.get 0 local.get 0 i32.add))
"#;
    let mut m = load(component, Some("world w { export twice: func(x: s32) -> s32; }"));
    assert_eq!(m.abi(), AbiKind::Component);
    assert_eq!(m.call_dyn("twice", &[WasmVal::I32(4)]), Err(AbiError::CabiReallocNotExported));
}

#[test]
fn linker_items_from_another_store_are_an_error() {
    let engine = small_engine();
    let mut other = wasmtime::Store::new(&engine, ());
    let memory = wasmtime::Memory::new(&mut other, wasmtime::MemoryType::new(1, None)).unwrap();
    let mut linker: Linker<()> = Linker::new(&engine);
    linker.define(&other, "env", "mem", memory).unwrap();
    let wat = r#"(module (import "env" "mem" (memory 1)))"#;
    let r = instantiate_from_bytes(&linker, wat.as_bytes(), None, None);
    assert!(matches!(r, Err(LoadError::Instantiate(_))));
}
