//! The WIT parser: name conversions, types, parameter lists, declarations and
//! whole worlds, with the regex formulation of the grammar as an oracle.

use universal_wasm_loader::wit_parser::{
    kebab_to_camel, kebab_to_snake, parse_funcs, parse_params, parse_wit, ParsedWit, WitFunc,
    WitParam, WitType,
};

fn param(name: &str, ty: WitType) -> (String, WitType) {
    (name.to_string(), ty)
}

fn params_of(ps: &[WitParam]) -> Vec<(String, WitType)> {
    ps.iter().map(|p| (p.name.clone(), p.ty)).collect()
}

#[test]
fn snake_replaces_every_dash() {
    assert_eq!(kebab_to_snake("is-even"), "is_even");
    assert_eq!(kebab_to_snake("a-b-c"), "a_b_c");
    assert_eq!(kebab_to_snake("plain"), "plain");
    assert_eq!(kebab_to_snake(""), "");
    assert_eq!(kebab_to_snake("--"), "__");
}

#[test]
fn camel_capitalises_after_dash() {
    assert_eq!(kebab_to_camel("is-positive"), "isPositive");
    assert_eq!(kebab_to_camel("env-mul"), "envMul");
    assert_eq!(kebab_to_camel("str-len"), "strLen");
    assert_eq!(kebab_to_camel("add"), "add");
    assert_eq!(kebab_to_camel(""), "");
}

#[test]
fn camel_edge_cases() {
    // A trailing dash is dropped; doubled dashes capitalise once.
    assert_eq!(kebab_to_camel("end-"), "end");
    assert_eq!(kebab_to_camel("a--b"), "aB");
    // Digits and capitals after a dash stay as they are.
    assert_eq!(kebab_to_camel("v-2"), "v2");
    assert_eq!(kebab_to_camel("x-Y"), "xY");
    // Non-ASCII letters are upper-cased too.
    assert_eq!(kebab_to_camel("a-é"), "aÉ");
    assert_eq!(kebab_to_camel("straße-ß"), "straßeSS");
}

#[test]
fn camel_has_no_dash_left() {
    for name in ["a-b", "one-two-three", "-lead", "trail-", "x--y"] {
        assert!(!kebab_to_camel(name).contains('-'), "{name}");
    }
}

#[test]
fn type_names() {
    assert_eq!(WitType::from_str("s32"), WitType::S32);
    assert_eq!(WitType::from_str("s64"), WitType::S64);
    assert_eq!(WitType::from_str("f32"), WitType::F32);
    assert_eq!(WitType::from_str("f64"), WitType::F64);
    assert_eq!(WitType::from_str("bool"), WitType::Bool);
    assert_eq!(WitType::from_str("string"), WitType::Str);
}

#[test]
fn type_names_trim_and_default() {
    assert_eq!(WitType::from_str("  f64\n"), WitType::F64);
    assert_eq!(WitType::from_str("\u{3000}bool\u{a0}"), WitType::Bool);
    assert_eq!(WitType::from_str("u8"), WitType::S32);
    assert_eq!(WitType::from_str(""), WitType::S32);
    assert_eq!(WitType::from_str("String"), WitType::S32);
    assert_eq!(WitType::from_str("f 64"), WitType::S32);
}

#[test]
fn params_basic() {
    let ps = parse_params("a: s32, b: f64");
    assert_eq!(params_of(&ps), vec![param("a", WitType::S32), param("b", WitType::F64)]);
}

#[test]
fn params_empty_and_blank() {
    assert!(parse_params("").is_empty());
    assert!(parse_params("   \t").is_empty());
}

#[test]
fn params_kebab_names_and_skipped_parts() {
    let ps = parse_params(" first-name : string ,junk, n-2:bool ");
    assert_eq!(
        params_of(&ps),
        vec![param("first_name", WitType::Str), param("n_2", WitType::Bool)]
    );
}

#[test]
fn params_unknown_type_and_trailing_comma() {
    let ps = parse_params("x: u64,");
    assert_eq!(params_of(&ps), vec![param("x", WitType::S32)]);
    let ps = parse_params("x: s64, : f32");
    assert_eq!(params_of(&ps), vec![param("x", WitType::S64), param("", WitType::F32)]);
}

#[test]
fn funcs_of_a_body() {
    let body = "
      import env-mul: func(a: f64, b: f64) -> f64;
      export scale: func(x: f64, y: f64) -> f64;
      export reset: func();
    ";
    let ex = parse_funcs(body, "export");
    assert_eq!(ex.len(), 2);
    assert_eq!(ex[0].name, "scale");
    assert_eq!(ex[0].result, Some(WitType::F64));
    assert_eq!(ex[1].name, "reset");
    assert!(ex[1].params.is_empty());
    assert_eq!(ex[1].result, None);
    let im = parse_funcs(body, "import");
    assert_eq!(im.len(), 1);
    assert_eq!(im[0].name, "env-mul");
    assert_eq!(im[0].camel_name, "envMul");
    assert_eq!(im[0].snake_name, "env_mul");
}

#[test]
fn funcs_need_word_boundary_and_semicolon() {
    // `reexport` has no word boundary before `export`; the second one lacks `;`.
    let body = "reexport a: func(); export b: func() export c: func(x: s32) -> bool;";
    let ex = parse_funcs(body, "export");
    assert_eq!(ex.len(), 1);
    assert_eq!(ex[0].name, "c");
    assert_eq!(ex[0].result, Some(WitType::Bool));
}

#[test]
fn funcs_result_names_any_type() {
    let ex = parse_funcs("export f: func() -> list-of;", "export");
    assert_eq!(ex.len(), 1);
    assert_eq!(ex[0].result, Some(WitType::S32));
}

#[test]
fn wit_world_math() {
    let w = parse_wit(
        "package local:math;\n\nworld math {\n  export add: func(a: s32, b: s32) -> s32;\n  export square: func(x: s32) -> s32;\n}\n",
    );
    assert_eq!(w.package_name, "local:math");
    assert_eq!(w.world_name, "math");
    assert!(w.imports.is_empty());
    assert_eq!(w.exports.len(), 2);
    assert_eq!(w.exports[0].snake_name, "add");
    assert_eq!(
        params_of(&w.exports[0].params),
        vec![param("a", WitType::S32), param("b", WitType::S32)]
    );
    assert_eq!(w.exports[1].name, "square");
}

#[test]
fn wit_without_package_or_world() {
    let w = parse_wit("");
    assert_eq!(w.package_name, "");
    assert_eq!(w.world_name, "");
    assert!(w.imports.is_empty() && w.exports.is_empty());
    // Declarations outside a world are not seen.
    let w = parse_wit("export f: func();");
    assert!(w.exports.is_empty());
}

#[test]
fn wit_world_body_reaches_last_brace() {
    let w = parse_wit("world w { export a: func(); } export b: func(); }");
    assert_eq!(w.world_name, "w");
    let names: Vec<&str> = w.exports.iter().map(|f| f.name.as_str()).collect();
    assert_eq!(names, vec!["a", "b"]);
}

#[test]
fn wit_package_first_match() {
    let w = parse_wit("package ns:pkg/iface; package other:x; world a-b { }");
    assert_eq!(w.package_name, "ns:pkg/iface");
    assert_eq!(w.world_name, "a-b");
}

// ── The regex formulation of the grammar, as an oracle ───────────────────────

fn oracle_params(raw: &str) -> Vec<(String, WitType)> {
    let raw = raw.trim();
    if raw.is_empty() {
        return vec![];
    }
    raw.split(',')
        .filter_map(|part| {
            let colon = part.find(':')?;
            let name = part[..colon].trim().replace('-', "_");
            Some((name, WitType::from_str(&part[colon + 1..])))
        })
        .collect()
}

fn oracle_funcs(body: &str, keyword: &str) -> Vec<(String, Vec<(String, WitType)>, Option<WitType>)> {
    let pattern = format!(
        r"\b{}\s+([\w-]+)\s*:\s*func\s*\(([^)]*)\)(?:\s*->\s*([\w-]+))?\s*;",
        keyword
    );
    let re = regex_lite::Regex::new(&pattern).unwrap();
    re.captures_iter(body)
        .map(|cap| {
            (
                cap[1].to_string(),
                oracle_params(&cap[2]),
                cap.get(3).map(|m| WitType::from_str(m.as_str())),
            )
        })
        .collect()
}

fn oracle_wit(src: &str) -> (String, String, String) {
    let pkg = regex_lite::Regex::new(r"package\s+([\w:/-]+)\s*;").unwrap();
    let package = pkg.captures(src).map(|c| c[1].to_string()).unwrap_or_default();
    let world = regex_lite::Regex::new(r"world\s+([\w-]+)\s*\{([\s\S]*)\}").unwrap();
    let (name, body) = world
        .captures(src)
        .map(|c| (c[1].to_string(), c[2].to_string()))
        .unwrap_or_default();
    (package, name, body)
}

fn funcs_of(fs: &[WitFunc]) -> Vec<(String, Vec<(String, WitType)>, Option<WitType>)> {
    fs.iter().map(|f| (f.name.clone(), params_of(&f.params), f.result)).collect()
}

fn agrees_with_oracle(src: &str) {
    let w: ParsedWit = parse_wit(src);
    let (package, name, body) = oracle_wit(src);
    assert_eq!(w.package_name, package, "package of {src:?}");
    assert_eq!(w.world_name, name, "world of {src:?}");
    assert_eq!(funcs_of(&w.imports), oracle_funcs(&body, "import"), "imports of {src:?}");
    assert_eq!(funcs_of(&w.exports), oracle_funcs(&body, "export"), "exports of {src:?}");
    for f in w.imports.iter().chain(w.exports.iter()) {
        assert_eq!(f.camel_name, kebab_to_camel(&f.name));
        assert_eq!(f.snake_name, kebab_to_snake(&f.name));
    }
}

#[test]
fn parser_agrees_with_regex_grammar() {
    let cases = [
        "package local:imports;\nworld imports {\n  import env-mul: func(a: f64, b: f64) -> f64;\n  import env-add: func(a: s32, b: s32) -> s32;\n  export scale: func(x: f64, y: f64) -> f64;\n  export combine: func(a: s32, b: s32) -> s32;\n}\n",
        "package a:b;world w{export f:func(x:string)->string;import g : func ( ) ;}",
        "world w { export  f :\tfunc(a: s32,) -> bool ; export g: func(a: s32) ->; }",
        "packagex:y; package  p ; world  { } world real { export h: func(); }",
        "world w { exportx: func(); export_y: func(); export z-z: func(q-r: s64) -> f32 ;}",
        "world w { export a: func(b: s32 -> s32; export c: func() -> s32 ; }",
        "world w { import import: func(); export export: func() ; export é: func(); }",
        "no world here at all; export a: func();",
        "world w {\n export a: func() -> s32\n ;\n}",
    ];
    for src in cases {
        agrees_with_oracle(src);
    }
}

#[test]
fn written_declaration_reads_back() {
    let fs = parse_funcs("export is-even: func(n: s32) -> bool;", "export");
    assert_eq!(fs.len(), 1);
    assert_eq!(fs[0].name, "is-even");
    assert_eq!(fs[0].camel_name, "isEven");
    assert_eq!(fs[0].snake_name, "is_even");
    assert_eq!(params_of(&fs[0].params), vec![param("n", WitType::S32)]);
    assert_eq!(fs[0].result, Some(WitType::Bool));
    let fs = parse_funcs("import env-log: func(msg: string, level: s32);", "import");
    assert_eq!(fs.len(), 1);
    assert_eq!(fs[0].camel_name, "envLog");
    assert_eq!(
        params_of(&fs[0].params),
        vec![param("msg", WitType::Str), param("level", WitType::S32)]
    );
    assert_eq!(fs[0].result, None);
}

#[test]
fn parsed_functions_are_well_formed() {
    let w = parse_wit(
        "world w { import a-b-c: func(x-y: s32); export q: func(); export r2-d2: func(p-q: string, r: f32) -> f64; }",
    );
    for f in w.imports.iter().chain(w.exports.iter()) {
        assert!(!f.name.is_empty());
        assert!(f.name.chars().all(|c| c.is_ascii_alphanumeric() || c == '_' || c == '-'));
        assert_eq!(f.snake_name, kebab_to_snake(&f.name));
        assert_eq!(f.camel_name, kebab_to_camel(&f.name));
        assert!(f.params.iter().all(|p| !p.name.contains('-')));
    }
    assert_eq!(w.exports[1].snake_name, "r2_d2");
    assert_eq!(w.exports[1].camel_name, "r2D2");
}

#[test]
fn written_world_reads_back() {
    let w = parse_wit("package ns:pkg/api;\nworld my-world { export f: func(); import g: func(); }");
    assert_eq!(w.package_name, "ns:pkg/api");
    assert_eq!(w.world_name, "my-world");
    assert_eq!(w.exports.len(), 1);
    assert_eq!(w.exports[0].name, "f");
    assert_eq!(w.imports.len(), 1);
    assert_eq!(w.imports[0].name, "g");
    // A package id that contains `world` does not start the world clause.
    let w = parse_wit("package my:world;\nworld w {}");
    assert_eq!(w.package_name, "my:world");
    assert_eq!(w.world_name, "w");
}

#[test]
fn camel_dashes_everywhere() {
    assert_eq!(kebab_to_camel("-a--b-"), "AB");
    let fs = parse_funcs("reexport a: func(); export b-c: func(x: string) -> string;", "export");
    assert_eq!(fs.len(), 1);
    assert_eq!(fs[0].camel_name, "bC");
    assert_eq!(fs[0].snake_name, "b_c");
}
