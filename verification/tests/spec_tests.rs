//! The reference assertions, run against small modules that follow the wasic
//! convention (written in the text format), each with its companion WIT.

use universal_wasm_loader::abi::WasmVal;
use universal_wasm_loader::loader::{instantiate_from_bytes, LoadedModule};
use universal_wasm_loader::wit_parser::parse_wit;
use wasmtime::{Config, Engine, Linker};

const MATH_WAT: &str = r#"
(module
  (memory (export "memory") 1)
  (func (export "add") (param i32 i32) (result i32)
    local.get 0 local.get 1 i32.add)
  (func (export "multiply") (param f64 f64) (result f64)
    local.get 0 local.get 1 f64.mul)
  (func (export "square") (param i32) (result i32)
    local.get 0 local.get 0 i32.mul))
"#;

const MATH_WIT: &str = "package local:math;

world math {
  export add: func(a: s32, b: s32) -> s32;
  export multiply: func(a: f64, b: f64) -> f64;
  export square: func(x: s32) -> s32;
}
";

const BOOLEANS_WAT: &str = r#"
(module
  (memory (export "memory") 1)
  (func (export "isPositive") (param f64) (result i32)
    local.get 0 f64.const 0 f64.gt)
  (func (export "inRange") (param f64 f64 f64) (result i32)
    local.get 0 local.get 1 f64.ge
    local.get 0 local.get 2 f64.le
    i32.and)
  (func (export "isEven") (param i32) (result i32)
    local.get 0 i32.const 2 i32.rem_s i32.eqz))
"#;

const BOOLEANS_WIT: &str = "package local:booleans;

world booleans {
  export is-positive: func(x: f64) -> bool;
  export in-range: func(x: f64, lo: f64, hi: f64) -> bool;
  export is-even: func(n: s32) -> bool;
}
";

const STRINGS_WAT: &str = r#"
(module
  (memory (export "memory") 1)
  (global $heap (mut i32) (i32.const 1024))
  (global $ret_ptr (export "__str_ret_ptr") (mut i32) (i32.const 0))
  (global $ret_len (export "__str_ret_len") (mut i32) (i32.const 0))
  (data (i32.const 16) "Hello, ")
  (func $malloc (export "__malloc") (param $n i32) (result i32) (local $p i32)
    global.get $heap local.set $p
    global.get $heap local.get $n i32.add global.set $heap
    local.get $p)
  (func (export "greet") (param $p i32) (param $n i32) (local $out i32)
    local.get $n i32.const 8 i32.add call $malloc local.set $out
    local.get $out i32.const 16 i32.const 7 memory.copy
    local.get $out i32.const 7 i32.add local.get $p local.get $n memory.copy
    local.get $out i32.const 7 i32.add local.get $n i32.add i32.const 33 i32.store8
    local.get $out global.set $ret_ptr
    local.get $n i32.const 8 i32.add global.set $ret_len)
  (func (export "shout") (param $p i32) (param $n i32) (local $out i32)
    local.get $n i32.const 2 i32.mul call $malloc local.set $out
    local.get $out local.get $p local.get $n memory.copy
    local.get $out local.get $n i32.add local.get $p local.get $n memory.copy
    local.get $out global.set $ret_ptr
    local.get $n i32.const 2 i32.mul global.set $ret_len)
  (func (export "strLen") (param i32 i32) (result i32)
    local.get 1))
"#;

const STRINGS_WIT: &str = "package local:strings;

world strings {
  export greet: func(name: string) -> string;
  export shout: func(s: string) -> string;
  export str-len: func(s: string) -> s32;
}
";

/// An engine that reserves little address space per linear memory.
fn small_engine() -> Engine {
    let mut config = Config::new();
    config
        .memory_reservation(1 << 24)
        .memory_guard_size(1 << 16)
        .memory_reservation_for_growth(1 << 16);
    Engine::new(&config).unwrap()
}

fn load(wat: &str, wit: &str) -> LoadedModule {
    let engine = small_engine();
    let linker: Linker<()> = Linker::new(&engine);
    instantiate_from_bytes(&linker, wat.as_bytes(), Some(parse_wit(wit)), None).unwrap()
}

fn call_i32(m: &mut LoadedModule, name: &str, args: &[WasmVal]) -> i32 {
    match m.call_dyn(name, args).unwrap() {
        WasmVal::I32(v) => v,
        other => panic!("expected i32, got {:?}", other),
    }
}

fn call_f64(m: &mut LoadedModule, name: &str, args: &[WasmVal]) -> f64 {
    match m.call_dyn(name, args).unwrap() {
        WasmVal::F64(bits) => f64::from_bits(bits),
        other => panic!("expected f64, got {:?}", other),
    }
}

fn call_bool(m: &mut LoadedModule, name: &str, args: &[WasmVal]) -> bool {
    match m.call_dyn(name, args).unwrap() {
        WasmVal::Bool(b) => b,
        other => panic!("expected bool, got {:?}", other),
    }
}

fn call_string(m: &mut LoadedModule, name: &str, args: &[WasmVal]) -> String {
    match m.call_dyn(name, args).unwrap() {
        WasmVal::Str(s) => s,
        other => panic!("expected string, got {:?}", other),
    }
}

fn f64v(x: f64) -> WasmVal {
    WasmVal::F64(x.to_bits())
}

fn s(x: &str) -> WasmVal {
    WasmVal::Str(x.to_string())
}

// ── math_50 — numeric round-trip ─────────────────────────────────────────────

#[test]
fn math_add() {
    let mut m = load(MATH_WAT, MATH_WIT);
    let r = call_i32(&mut m, "add", &[WasmVal::I32(3), WasmVal::I32(4)]);
    assert_eq!(r, 7);
}

#[test]
fn math_multiply() {
    let mut m = load(MATH_WAT, MATH_WIT);
    let r = call_f64(&mut m, "multiply", &[f64v(2.5), f64v(4.0)]);
    assert_eq!(r, 10.0);
}

#[test]
fn math_square() {
    let mut m = load(MATH_WAT, MATH_WIT);
    let r = call_i32(&mut m, "square", &[WasmVal::I32(5)]);
    assert_eq!(r, 25);
}

// ── booleans_50 — bool ABI (i32 0/1 ↔ bool) ──────────────────────────────────

#[test]
fn bool_is_positive_true() {
    let mut m = load(BOOLEANS_WAT, BOOLEANS_WIT);
    assert!(call_bool(&mut m, "is_positive", &[f64v(1.0)]));
}

#[test]
fn bool_is_positive_false() {
    let mut m = load(BOOLEANS_WAT, BOOLEANS_WIT);
    assert!(!call_bool(&mut m, "is_positive", &[f64v(-1.0)]));
}

#[test]
fn bool_in_range_true() {
    let mut m = load(BOOLEANS_WAT, BOOLEANS_WIT);
    assert!(call_bool(&mut m, "in_range", &[f64v(5.0), f64v(0.0), f64v(10.0)]));
}

#[test]
fn bool_in_range_false() {
    let mut m = load(BOOLEANS_WAT, BOOLEANS_WIT);
    assert!(!call_bool(&mut m, "in_range", &[f64v(11.0), f64v(0.0), f64v(10.0)]));
}

#[test]
fn bool_is_even_true() {
    let mut m = load(BOOLEANS_WAT, BOOLEANS_WIT);
    assert!(call_bool(&mut m, "is_even", &[WasmVal::I32(4)]));
}

#[test]
fn bool_is_even_false() {
    let mut m = load(BOOLEANS_WAT, BOOLEANS_WIT);
    assert!(!call_bool(&mut m, "is_even", &[WasmVal::I32(3)]));
}

// ── strings_50 — string ABI (__malloc + globals) ─────────────────────────────

#[test]
fn str_greet() {
    let mut m = load(STRINGS_WAT, STRINGS_WIT);
    assert_eq!(call_string(&mut m, "greet", &[s("World")]), "Hello, World!");
}

#[test]
fn str_shout() {
    let mut m = load(STRINGS_WAT, STRINGS_WIT);
    assert_eq!(call_string(&mut m, "shout", &[s("hi")]), "hihi");
}

#[test]
fn str_len() {
    let mut m = load(STRINGS_WAT, STRINGS_WIT);
    assert_eq!(call_i32(&mut m, "str_len", &[s("hello")]), 5);
}

// ── typed handle structs, written out as the interface macro would ───────────

pub struct Math(LoadedModule);

impl Math {
    pub fn load() -> Math {
        Math(load(MATH_WAT, MATH_WIT))
    }

    pub fn add(&mut self, a: i32, b: i32) -> i32 {
        call_i32(&mut self.0, "add", &[WasmVal::I32(a), WasmVal::I32(b)])
    }

    pub fn multiply(&mut self, a: f64, b: f64) -> f64 {
        call_f64(&mut self.0, "multiply", &[f64v(a), f64v(b)])
    }

    pub fn square(&mut self, x: i32) -> i32 {
        call_i32(&mut self.0, "square", &[WasmVal::I32(x)])
    }
}

pub struct Booleans(LoadedModule);

impl Booleans {
    pub fn load() -> Booleans {
        Booleans(load(BOOLEANS_WAT, BOOLEANS_WIT))
    }

    pub fn is_positive(&mut self, x: f64) -> bool {
        call_bool(&mut self.0, "is_positive", &[f64v(x)])
    }

    pub fn in_range(&mut self, x: f64, lo: f64, hi: f64) -> bool {
        call_bool(&mut self.0, "in_range", &[f64v(x), f64v(lo), f64v(hi)])
    }

    pub fn is_even(&mut self, n: i32) -> bool {
        call_bool(&mut self.0, "is_even", &[WasmVal::I32(n)])
    }
}

pub struct Strings(LoadedModule);

impl Strings {
    pub fn load() -> Strings {
        Strings(load(STRINGS_WAT, STRINGS_WIT))
    }

    pub fn greet(&mut self, name: &str) -> String {
        call_string(&mut self.0, "greet", &[s(name)])
    }

    pub fn shout(&mut self, x: &str) -> String {
        call_string(&mut self.0, "shout", &[s(x)])
    }

    pub fn str_len(&mut self, x: &str) -> i32 {
        call_i32(&mut self.0, "str_len", &[s(x)])
    }
}

#[test]
fn interface_math() {
    let mut math = Math::load();
    assert_eq!(math.add(3, 4), 7);
    assert_eq!(math.multiply(2.5, 4.0), 10.0);
    assert_eq!(math.square(5), 25);
}

#[test]
fn interface_booleans() {
    let mut b = Booleans::load();
    assert!(b.is_positive(1.0));
    assert!(!b.is_positive(-1.0));
    assert!(b.in_range(5.0, 0.0, 10.0));
    assert!(!b.in_range(11.0, 0.0, 10.0));
    assert!(b.is_even(4));
    assert!(!b.is_even(3));
}

#[test]
fn interface_strings() {
    let mut s = Strings::load();
    assert_eq!(s.greet("World"), "Hello, World!");
    assert_eq!(s.shout("hi"), "hihi");
    assert_eq!(s.str_len("hello"), 5);
}
