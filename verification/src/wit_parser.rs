//! A reader for the WIT worlds that wasmtk emits:
//!
//! ```text
//! package local:math;
//! world math {
//!   export add: func(a: s32, b: s32) -> s32;
//!   import env-mul: func(a: f64, b: f64) -> f64;
//! }
//! ```
//!
//! The grammar is the one of the line-oriented patterns that wasmtk's loaders
//! share; the spec functions below state it position by position.
use vstd::prelude::*;
use crate::text::{
    append_char, chars_of, in_class, index_of, last_index, last_index_before, index_of_from, is_word_char, occurs_at,
    occurs_at_exec, range_is, skip_class, skip_run, string_of_range, sub_vec, trim_range,
    trim_spec, word_char, CharClass,
};

verus! {

/// Parsed WIT type.
#[derive(Debug, Clone, Copy, PartialEq, Eq, Structural)]
pub enum WitType {
    S32,
    S64,
    F32,
    F64,
    Bool,
    Str,
}

/// A single parameter in a WIT function signature.
#[derive(Debug, Clone)]
pub struct WitParam {
    /// snake_case name for use in Rust.
    pub name: String,
    pub ty: WitType,
}

/// A parsed WIT function (import or export).
#[derive(Debug, Clone)]
pub struct WitFunc {
    /// Original kebab-case name from WIT.
    pub name: String,
    /// camelCase name: the name used in the WASM binary for exports.
    pub camel_name: String,
    /// snake_case name for the host language, used in the public API.
    pub snake_name: String,
    pub params: Vec<WitParam>,
    pub result: Option<WitType>,
}

/// Fully parsed WIT world.
#[derive(Debug, Clone)]
pub struct ParsedWit {
    pub package_name: String,
    pub world_name: String,
    pub imports: Vec<WitFunc>,
    pub exports: Vec<WitFunc>,
}

/// The mathematical content of a [`WitParam`].
pub struct WitParamView {
    pub name: Seq<char>,
    pub ty: WitType,
}

/// The mathematical content of a [`WitFunc`].
pub struct WitFuncView {
    pub name: Seq<char>,
    pub camel_name: Seq<char>,
    pub snake_name: Seq<char>,
    pub params: Seq<WitParamView>,
    pub result: Option<WitType>,
}

/// The mathematical content of a [`ParsedWit`].
pub struct ParsedWitView {
    pub package_name: Seq<char>,
    pub world_name: Seq<char>,
    pub imports: Seq<WitFuncView>,
    pub exports: Seq<WitFuncView>,
}

impl View for WitParam {
    type V = WitParamView;

    open spec fn view(&self) -> WitParamView {
        WitParamView { name: self.name@, ty: self.ty }
    }
}

pub open spec fn params_view(ps: Seq<WitParam>) -> Seq<WitParamView> {
    ps.map_values(|p: WitParam| p@)
}

impl View for WitFunc {
    type V = WitFuncView;

    open spec fn view(&self) -> WitFuncView {
        WitFuncView {
            name: self.name@,
            camel_name: self.camel_name@,
            snake_name: self.snake_name@,
            params: params_view(self.params@),
            result: self.result,
        }
    }
}

pub open spec fn funcs_view(fs: Seq<WitFunc>) -> Seq<WitFuncView> {
    fs.map_values(|f: WitFunc| f@)
}

impl View for ParsedWit {
    type V = ParsedWitView;

    open spec fn view(&self) -> ParsedWitView {
        ParsedWitView {
            package_name: self.package_name@,
            world_name: self.world_name@,
            imports: funcs_view(self.imports@),
            exports: funcs_view(self.exports@),
        }
    }
}

// ── Names ─────────────────────────────────────────────────────────────────────

/// kebab-case to snake_case: every `-` becomes `_`, nothing else changes.
pub open spec fn kebab_snake(s: Seq<char>) -> Seq<char> {
    s.map_values(|c: char| if c == '-' { '_' } else { c })
}

/// What `char::to_uppercase` yields for `c` (Unicode's uppercase mapping).
pub uninterp spec fn char_uppercase(c: char) -> Seq<char>;

/// The ASCII uppercase of `c`: `a`..`z` become `A`..`Z`, every other
/// character stays.
pub open spec fn ascii_upper(c: char) -> char {
    if 'a' <= c && c <= 'z' {
        ((c as u32) - 32) as char
    } else {
        c
    }
}

/// The uppercase of `c`: for an ASCII character its ASCII uppercase, beyond
/// ASCII Unicode's uppercase mapping (which may be several characters).
pub open spec fn upper_of(c: char) -> Seq<char> {
    if (c as u32) < 128 {
        seq![ascii_upper(c)]
    } else {
        char_uppercase(c)
    }
}

/// The part of the camelCase form that comes from `s[i]`: a `-` disappears, a
/// character right after a `-` is upper-cased, any other is kept.
pub open spec fn camel_piece(s: Seq<char>, i: int) -> Seq<char> {
    if s[i] == '-' {
        Seq::empty()
    } else if i > 0 && s[i - 1] == '-' {
        upper_of(s[i])
    } else {
        seq![s[i]]
    }
}

/// The camelCase form of the first `n` characters of `s`.
pub open spec fn camel_prefix(s: Seq<char>, n: int) -> Seq<char>
    decreases n,
{
    if n <= 0 {
        Seq::empty()
    } else {
        camel_prefix(s, n - 1) + camel_piece(s, n - 1)
    }
}

/// kebab-case to camelCase.
pub open spec fn kebab_camel(s: Seq<char>) -> Seq<char> {
    camel_prefix(s, s.len() as int)
}

/// `char::to_uppercase`, collected. For ASCII the mapping is the plain one:
/// `a`..`z` become `A`..`Z` and every other ASCII character stays as it is;
/// beyond ASCII the result is Unicode's uppercase mapping, which is named here
/// and not written out.
#[verifier::external_body]
fn to_uppercase_chars(c: char) -> (r: Vec<char>)
    ensures
        r@ == char_uppercase(c),
        'a' <= c && c <= 'z' ==> r@ == seq![((c as u32) - 32) as char],
        (c as u32) < 128 && !('a' <= c && c <= 'z') ==> r@ == seq![c],
{
    c.to_uppercase().collect()
}

fn snake_chars(s: &Vec<char>) -> (r: String)
    ensures
        r@ == kebab_snake(s@),
{
    let mut r = String::new();
    let mut i: usize = 0;
    while i < s.len()
        invariant
            i <= s.len(),
            r@ == kebab_snake(s@.subrange(0, i as int)),
        decreases s.len() - i,
    {
        let c = s[i];
        let d = if c == '-' {
            '_'
        } else {
            c
        };
        append_char(&mut r, d);
        proof {
            assert(kebab_snake(s@.subrange(0, i + 1)) =~= kebab_snake(s@.subrange(0, i as int)).push(
                d,
            ));
        }
        i = i + 1;
    }
    proof {
        assert(s@.subrange(0, s@.len() as int) =~= s@);
    }
    r
}

fn camel_chars(s: &Vec<char>) -> (r: String)
    ensures
        r@ == kebab_camel(s@),
{
    let mut r = String::new();
    let mut capitalize_next = false;
    let mut i: usize = 0;
    while i < s.len()
        invariant
            i <= s.len(),
            capitalize_next == (i > 0 && s@[i - 1] == '-'),
            r@ == camel_prefix(s@, i as int),
        decreases s.len() - i,
    {
        let ch = s[i];
        if ch == '-' {
            capitalize_next = true;
            proof {
                assert(camel_prefix(s@, i + 1) =~= camel_prefix(s@, i as int));
            }
        } else if capitalize_next {
            let up = to_uppercase_chars(ch);
            proof {
                assert(up@ == upper_of(ch));
            }
            let mut k: usize = 0;
            let ghost r0 = r@;
            while k < up.len()
                invariant
                    k <= up.len(),
                    r@ == r0 + up@.subrange(0, k as int),
                decreases up.len() - k,
            {
                append_char(&mut r, up[k]);
                proof {
                    assert(r0 + up@.subrange(0, k + 1) =~= (r0 + up@.subrange(0, k as int)).push(
                        up@[k as int],
                    ));
                }
                k = k + 1;
            }
            proof {
                assert(up@.subrange(0, up@.len() as int) =~= up@);
            }
            capitalize_next = false;
        } else {
            append_char(&mut r, ch);
        }
        i = i + 1;
    }
    r
}

/// Convert kebab-case to snake_case.
pub fn kebab_to_snake(s: &str) -> (r: String)
    ensures
        r@ == kebab_snake(s@),
{
    snake_chars(&chars_of(s))
}

/// Convert kebab-case to camelCase: each `-` is dropped and the character that
/// follows it is upper-cased.
pub fn kebab_to_camel(s: &str) -> (r: String)
    ensures
        r@ == kebab_camel(s@),
{
    camel_chars(&chars_of(s))
}

// ── Types ─────────────────────────────────────────────────────────────────────

pub open spec fn lit_s32() -> Seq<char> {
    seq!['s', '3', '2']
}

pub open spec fn lit_s64() -> Seq<char> {
    seq!['s', '6', '4']
}

pub open spec fn lit_f32() -> Seq<char> {
    seq!['f', '3', '2']
}

pub open spec fn lit_f64() -> Seq<char> {
    seq!['f', '6', '4']
}

pub open spec fn lit_bool() -> Seq<char> {
    seq!['b', 'o', 'o', 'l']
}

pub open spec fn lit_string() -> Seq<char> {
    seq!['s', 't', 'r', 'i', 'n', 'g']
}

/// The WIT type that a type name denotes once trimmed; an unknown name is `s32`.
pub open spec fn wit_type_named(s: Seq<char>) -> WitType {
    let t = trim_spec(s);
    if t == lit_s32() {
        WitType::S32
    } else if t == lit_s64() {
        WitType::S64
    } else if t == lit_f32() {
        WitType::F32
    } else if t == lit_f64() {
        WitType::F64
    } else if t == lit_bool() {
        WitType::Bool
    } else if t == lit_string() {
        WitType::Str
    } else {
        WitType::S32
    }
}

/// The WIT spelling of a type.
pub open spec fn wit_type_name(t: WitType) -> Seq<char> {
    match t {
        WitType::S32 => lit_s32(),
        WitType::S64 => lit_s64(),
        WitType::F32 => lit_f32(),
        WitType::F64 => lit_f64(),
        WitType::Bool => lit_bool(),
        WitType::Str => lit_string(),
    }
}

fn type_of_chars(s: &Vec<char>) -> (t: WitType)
    ensures
        t == wit_type_named(s@),
{
    let (a, b) = trim_range(s);
    let k_s32 = ['s', '3', '2'];
    let k_s64 = ['s', '6', '4'];
    let k_f32 = ['f', '3', '2'];
    let k_f64 = ['f', '6', '4'];
    let k_bool = ['b', 'o', 'o', 'l'];
    let k_string = ['s', 't', 'r', 'i', 'n', 'g'];
    proof {
        assert(k_s32@ =~= lit_s32());
        assert(k_s64@ =~= lit_s64());
        assert(k_f32@ =~= lit_f32());
        assert(k_f64@ =~= lit_f64());
        assert(k_bool@ =~= lit_bool());
        assert(k_string@ =~= lit_string());
    }
    if range_is(s, a, b, &k_s32) {
        WitType::S32
    } else if range_is(s, a, b, &k_s64) {
        WitType::S64
    } else if range_is(s, a, b, &k_f32) {
        WitType::F32
    } else if range_is(s, a, b, &k_f64) {
        WitType::F64
    } else if range_is(s, a, b, &k_bool) {
        WitType::Bool
    } else if range_is(s, a, b, &k_string) {
        WitType::Str
    } else {
        WitType::S32
    }
}

impl WitType {
    /// The type named by `s` (surrounding whitespace ignored); `s32` for any
    /// name it does not know.
    pub fn from_str(s: &str) -> (t: WitType)
        ensures
            t == wit_type_named(s@),
    {
        type_of_chars(&chars_of(s))
    }
}

// ── Parameters ────────────────────────────────────────────────────────────────

/// The parameter that one comma-separated part `name: type` describes; a part
/// without `:` describes none.
pub open spec fn param_of_part(part: Seq<char>) -> Option<WitParamView> {
    let c = index_of_from(part, ':', 0);
    if c >= part.len() {
        None
    } else {
        Some(
            WitParamView {
                name: kebab_snake(trim_spec(part.subrange(0, c))),
                ty: wit_type_named(part.subrange(c + 1, part.len() as int)),
            },
        )
    }
}

/// The parameters described by the comma-separated parts of `t` from `i` on.
pub open spec fn params_from(t: Seq<char>, i: int) -> Seq<WitParamView>
    decreases t.len() - i,
{
    if i < 0 || i > t.len() {
        Seq::empty()
    } else {
        let j = index_of_from(t, ',', i);
        let head = match param_of_part(t.subrange(i, j)) {
            Some(p) => seq![p],
            None => Seq::empty(),
        };
        if j < i || j >= t.len() {
            head
        } else {
            head + params_from(t, j + 1)
        }
    }
}

/// The parameter list written between the parentheses of a signature.
pub open spec fn parse_params_spec(raw: Seq<char>) -> Seq<WitParamView> {
    let t = trim_spec(raw);
    if t.len() == 0 {
        Seq::empty()
    } else {
        params_from(t, 0)
    }
}

fn param_of_chars(part: &Vec<char>) -> (r: Option<WitParam>)
    ensures
        match r {
            Some(p) => param_of_part(part@) == Some(p@),
            None => param_of_part(part@) is None,
        },
{
    let c = index_of(part, ':', 0);
    if c >= part.len() {
        return None;
    }
    let raw_name = sub_vec(part, 0, c);
    let (a, b) = trim_range(&raw_name);
    let name = snake_chars(&sub_vec(&raw_name, a, b));
    let ty = type_of_chars(&sub_vec(part, c + 1, part.len()));
    Some(WitParam { name, ty })
}

fn params_of_trimmed(t: &Vec<char>) -> (out: Vec<WitParam>)
    ensures
        params_view(out@) == params_from(t@, 0),
{
    let mut out: Vec<WitParam> = Vec::new();
    let mut i: usize = 0;
    loop
        invariant
            i <= t.len(),
            params_view(out@) + params_from(t@, i as int) == params_from(t@, 0),
        decreases t.len() - i,
    {
        let j = index_of(t, ',', i);
        let part = sub_vec(t, i, j);
        let ghost before = out@;
        let p = param_of_chars(&part);
        match p {
            Some(p) => {
                out.push(p);
            },
            None => {},
        }
        proof {
            let head = match param_of_part(t@.subrange(i as int, j as int)) {
                Some(q) => seq![q],
                None => Seq::<WitParamView>::empty(),
            };
            assert(params_view(out@) =~= params_view(before) + head);
        }
        if j >= t.len() {
            proof {
                assert(params_view(out@) =~= params_view(out@) + Seq::<WitParamView>::empty());
            }
            return out;
        }
        proof {
            assert(params_view(out@) + params_from(t@, j + 1) =~= params_view(before) + params_from(
                t@,
                i as int,
            ));
        }
        i = j + 1;
    }
}

fn params_of_chars(raw: &Vec<char>) -> (out: Vec<WitParam>)
    ensures
        params_view(out@) == parse_params_spec(raw@),
{
    let (a, b) = trim_range(raw);
    if a == b {
        let out: Vec<WitParam> = Vec::new();
        proof {
            assert(params_view(out@) =~= Seq::<WitParamView>::empty());
        }
        return out;
    }
    params_of_trimmed(&sub_vec(raw, a, b))
}

/// Parse the parameter list of a signature: comma-separated `name: type`
/// parts; names are converted to snake_case and parts without `:` are skipped.
pub fn parse_params(raw: &str) -> (out: Vec<WitParam>)
    ensures
        params_view(out@) == parse_params_spec(raw@),
{
    params_of_chars(&chars_of(raw))
}

// ── Function declarations ─────────────────────────────────────────────────────

pub open spec fn lit_func() -> Seq<char> {
    seq!['f', 'u', 'n', 'c']
}

pub open spec fn lit_arrow() -> Seq<char> {
    seq!['-', '>']
}

pub open spec fn lit_import() -> Seq<char> {
    seq!['i', 'm', 'p', 'o', 'r', 't']
}

pub open spec fn lit_export() -> Seq<char> {
    seq!['e', 'x', 'p', 'o', 'r', 't']
}

/// A keyword that introduces declarations: a non-empty run of word characters.
pub open spec fn is_keyword(kw: Seq<char>) -> bool {
    kw.len() > 0 && forall|k: int| 0 <= k < kw.len() ==> is_word_char(#[trigger] kw[k])
}

/// The pieces of one declaration `KW NAME : func ( PARAMS ) [-> RESULT] ;`
/// and the position just after its `;`.
pub struct DeclMatch {
    pub name: Seq<char>,
    pub params: Seq<char>,
    pub result: Option<Seq<char>>,
    pub end: int,
}

/// The declaration introduced by keyword `kw` that starts at position `p`, if
/// one does: the keyword starts a word, is followed by whitespace, a name, a
/// `:`, the word `func`, a parenthesised parameter list, an optional `->` and
/// result name, and a `;`, with optional whitespace between the pieces.
pub open spec fn decl_at(s: Seq<char>, p: int, kw: Seq<char>) -> Option<DeclMatch> {
    let a = p + kw.len();
    let b = skip_class(s, a, CharClass::AsciiSpace);
    let c = skip_class(s, b, CharClass::Name);
    let d = skip_class(s, c, CharClass::AsciiSpace);
    let e = skip_class(s, d + 1, CharClass::AsciiSpace);
    let f = skip_class(s, e + 4, CharClass::AsciiSpace);
    let g = skip_class(s, f + 1, CharClass::NotCloseParen);
    let h = skip_class(s, g + 1, CharClass::AsciiSpace);
    let i = skip_class(s, h + 2, CharClass::AsciiSpace);
    let j = skip_class(s, i, CharClass::Name);
    let k = skip_class(s, j, CharClass::AsciiSpace);
    if !(0 <= p && (p == 0 || !is_word_char(s[p - 1])) && occurs_at(s, p, kw)) {
        None
    } else if !(b > a && c > b && d < s.len() && s[d] == ':') {
        None
    } else if !(occurs_at(s, e, lit_func()) && f < s.len() && s[f] == '(' && g < s.len()) {
        None
    } else if occurs_at(s, h, lit_arrow()) {
        if j > i && k < s.len() && s[k] == ';' {
            Some(
                DeclMatch {
                    name: s.subrange(b, c),
                    params: s.subrange(f + 1, g),
                    result: Some(s.subrange(i, j)),
                    end: k + 1,
                },
            )
        } else {
            None
        }
    } else if h < s.len() && s[h] == ';' {
        Some(
            DeclMatch {
                name: s.subrange(b, c),
                params: s.subrange(f + 1, g),
                result: None,
                end: h + 1,
            },
        )
    } else {
        None
    }
}

/// The function that a declaration describes.
pub open spec fn func_of_decl(m: DeclMatch) -> WitFuncView {
    WitFuncView {
        name: m.name,
        camel_name: kebab_camel(m.name),
        snake_name: kebab_snake(m.name),
        params: parse_params_spec(m.params),
        result: match m.result {
            Some(r) => Some(wit_type_named(r)),
            None => None,
        },
    }
}

/// The functions declared with keyword `kw` in `s` from position `p` on, each
/// search resuming after the declaration it found.
pub open spec fn decls_from(s: Seq<char>, kw: Seq<char>, p: int) -> Seq<WitFuncView>
    decreases s.len() + 1 - p,
{
    if p < 0 || p > s.len() {
        Seq::empty()
    } else {
        match decl_at(s, p, kw) {
            Some(m) => if p < m.end <= s.len() {
                seq![func_of_decl(m)] + decls_from(s, kw, m.end)
            } else {
                Seq::empty()
            },
            None => decls_from(s, kw, p + 1),
        }
    }
}

/// The functions declared with keyword `kw` in `body`.
pub open spec fn parse_funcs_spec(body: Seq<char>, kw: Seq<char>) -> Seq<WitFuncView> {
    decls_from(body, kw, 0)
}

/// Where the pieces of a declaration lie in the text.
struct DeclSpan {
    name: (usize, usize),
    params: (usize, usize),
    result: Option<(usize, usize)>,
    end: usize,
}

fn decl_at_exec(s: &Vec<char>, p: usize, kw: &[char]) -> (r: Option<DeclSpan>)
    requires
        p <= s.len(),
        is_keyword(kw@),
    ensures
        match r {
            None => decl_at(s@, p as int, kw@) is None,
            Some(m) => {
                &&& p < m.end <= s.len()
                &&& m.name.0 <= m.name.1 <= s.len()
                &&& m.params.0 <= m.params.1 <= s.len()
                &&& (m.result matches Some(x) ==> x.0 <= x.1 <= s.len())
                &&& decl_at(s@, p as int, kw@) == Some(
                    DeclMatch {
                        name: s@.subrange(m.name.0 as int, m.name.1 as int),
                        params: s@.subrange(m.params.0 as int, m.params.1 as int),
                        result: match m.result {
                            Some(x) => Some(s@.subrange(x.0 as int, x.1 as int)),
                            None => None,
                        },
                        end: m.end as int,
                    },
                )
            },
        },
{
    if p > 0 && word_char(s[p - 1]) {
        return None;
    }
    if !occurs_at_exec(s, p, kw) {
        return None;
    }
    let a = p + kw.len();
    let b = skip_run(s, a, CharClass::AsciiSpace);
    let c = skip_run(s, b, CharClass::Name);
    let d = skip_run(s, c, CharClass::AsciiSpace);
    if !(b > a && c > b && d < s.len() && s[d] == ':') {
        return None;
    }
    let e = skip_run(s, d + 1, CharClass::AsciiSpace);
    let func_kw = ['f', 'u', 'n', 'c'];
    proof {
        assert(func_kw@ =~= lit_func());
    }
    if !occurs_at_exec(s, e, &func_kw) {
        return None;
    }
    let f = skip_run(s, e + 4, CharClass::AsciiSpace);
    if !(f < s.len() && s[f] == '(') {
        return None;
    }
    let g = skip_run(s, f + 1, CharClass::NotCloseParen);
    if !(g < s.len()) {
        return None;
    }
    let h = skip_run(s, g + 1, CharClass::AsciiSpace);
    let arrow = ['-', '>'];
    proof {
        assert(arrow@ =~= lit_arrow());
    }
    if occurs_at_exec(s, h, &arrow) {
        let i = skip_run(s, h + 2, CharClass::AsciiSpace);
        let j = skip_run(s, i, CharClass::Name);
        let k = skip_run(s, j, CharClass::AsciiSpace);
        if j > i && k < s.len() && s[k] == ';' {
            Some(DeclSpan { name: (b, c), params: (f + 1, g), result: Some((i, j)), end: k + 1 })
        } else {
            None
        }
    } else if h < s.len() && s[h] == ';' {
        Some(DeclSpan { name: (b, c), params: (f + 1, g), result: None, end: h + 1 })
    } else {
        None
    }
}

fn func_of_span(s: &Vec<char>, m: &DeclSpan) -> (f: WitFunc)
    requires
        m.name.0 <= m.name.1 <= s.len(),
        m.params.0 <= m.params.1 <= s.len(),
        m.result matches Some(x) ==> x.0 <= x.1 <= s.len(),
    ensures
        f@ == func_of_decl(
            DeclMatch {
                name: s@.subrange(m.name.0 as int, m.name.1 as int),
                params: s@.subrange(m.params.0 as int, m.params.1 as int),
                result: match m.result {
                    Some(x) => Some(s@.subrange(x.0 as int, x.1 as int)),
                    None => None,
                },
                end: m.end as int,
            },
        ),
{
    let name_chars = sub_vec(s, m.name.0, m.name.1);
    let name = string_of_range(s, m.name.0, m.name.1);
    let camel_name = camel_chars(&name_chars);
    let snake_name = snake_chars(&name_chars);
    let params = params_of_chars(&sub_vec(s, m.params.0, m.params.1));
    let result = match m.result {
        Some(x) => Some(type_of_chars(&sub_vec(s, x.0, x.1))),
        None => None,
    };
    WitFunc { name, camel_name, snake_name, params, result }
}

fn decls_of_chars(s: &Vec<char>, kw: &[char]) -> (out: Vec<WitFunc>)
    requires
        is_keyword(kw@),
    ensures
        funcs_view(out@) == parse_funcs_spec(s@, kw@),
{
    let mut out: Vec<WitFunc> = Vec::new();
    let mut p: usize = 0;
    while p < s.len()
        invariant
            p <= s.len(),
            is_keyword(kw@),
            funcs_view(out@) + decls_from(s@, kw@, p as int) == decls_from(s@, kw@, 0),
        decreases s.len() + 1 - p,
    {
        let ghost before = out@;
        match decl_at_exec(s, p, kw) {
            Some(m) => {
                let f = func_of_span(s, &m);
                out.push(f);
                proof {
                    assert(funcs_view(out@) =~= funcs_view(before).push(f@));
                    assert(funcs_view(out@) + decls_from(s@, kw@, m.end as int) =~= funcs_view(
                        before,
                    ) + decls_from(s@, kw@, p as int));
                }
                p = m.end;
            },
            None => {
                p = p + 1;
            },
        }
    }
    proof {
        assert(decl_at(s@, s@.len() as int, kw@) is None);
        assert(decls_from(s@, kw@, s@.len() + 1int) =~= Seq::<WitFuncView>::empty());
        assert(funcs_view(out@) =~= funcs_view(out@) + Seq::<WitFuncView>::empty());
    }
    out
}

/// The functions declared with `keyword` (`import` or `export`) in `body`.
pub fn parse_funcs(body: &str, keyword: &str) -> (out: Vec<WitFunc>)
    requires
        is_keyword(keyword@),
    ensures
        funcs_view(out@) == parse_funcs_spec(body@, keyword@),
{
    let s = chars_of(body);
    let kw = chars_of(keyword);
    decls_of_chars(&s, kw.as_slice())
}

// ── Package and world ────────────────────────────────────────────────────────

pub open spec fn lit_package() -> Seq<char> {
    seq!['p', 'a', 'c', 'k', 'a', 'g', 'e']
}

pub open spec fn lit_world() -> Seq<char> {
    seq!['w', 'o', 'r', 'l', 'd']
}

/// The package id of a `package ID ;` clause that starts at `p`, if one does.
pub open spec fn package_at(s: Seq<char>, p: int) -> Option<Seq<char>> {
    let a = p + 7;
    let b = skip_class(s, a, CharClass::AsciiSpace);
    let c = skip_class(s, b, CharClass::Package);
    let d = skip_class(s, c, CharClass::AsciiSpace);
    if occurs_at(s, p, lit_package()) && b > a && c > b && d < s.len() && s[d] == ';' {
        Some(s.subrange(b, c))
    } else {
        None
    }
}

/// The first package clause at or after `p`.
pub open spec fn first_package_from(s: Seq<char>, p: int) -> Option<Seq<char>>
    decreases s.len() + 1 - p,
{
    if p < 0 || p > s.len() {
        None
    } else {
        match package_at(s, p) {
            Some(n) => Some(n),
            None => first_package_from(s, p + 1),
        }
    }
}

/// The name and body of a `world NAME { BODY }` clause that starts at `p`, if
/// one does; the body runs up to the last `}` of the whole text.
pub open spec fn world_at(s: Seq<char>, p: int) -> Option<(Seq<char>, Seq<char>)> {
    let a = p + 5;
    let b = skip_class(s, a, CharClass::AsciiSpace);
    let c = skip_class(s, b, CharClass::Name);
    let d = skip_class(s, c, CharClass::AsciiSpace);
    let e = last_index_before(s, '}', s.len() as int);
    if occurs_at(s, p, lit_world()) && b > a && c > b && d < s.len() && s[d] == '{' && e > d {
        Some((s.subrange(b, c), s.subrange(d + 1, e)))
    } else {
        None
    }
}

/// The first world clause at or after `p`.
pub open spec fn first_world_from(s: Seq<char>, p: int) -> Option<(Seq<char>, Seq<char>)>
    decreases s.len() + 1 - p,
{
    if p < 0 || p > s.len() {
        None
    } else {
        match world_at(s, p) {
            Some(w) => Some(w),
            None => first_world_from(s, p + 1),
        }
    }
}

/// What `parse_wit` reads from a WIT text: the first package clause, the first
/// world clause, and the imports and exports declared in that world's body.
/// A missing clause reads as empty.
pub open spec fn parse_wit_spec(src: Seq<char>) -> ParsedWitView {
    let package_name = match first_package_from(src, 0) {
        Some(n) => n,
        None => Seq::empty(),
    };
    let (world_name, body) = match first_world_from(src, 0) {
        Some(w) => w,
        None => (Seq::empty(), Seq::empty()),
    };
    ParsedWitView {
        package_name,
        world_name,
        imports: parse_funcs_spec(body, lit_import()),
        exports: parse_funcs_spec(body, lit_export()),
    }
}

fn package_at_exec(s: &Vec<char>, p: usize) -> (r: Option<(usize, usize)>)
    requires
        p <= s.len(),
    ensures
        match r {
            None => package_at(s@, p as int) is None,
            Some(x) => x.0 <= x.1 <= s.len() && package_at(s@, p as int) == Some(
                s@.subrange(x.0 as int, x.1 as int),
            ),
        },
{
    let kw = ['p', 'a', 'c', 'k', 'a', 'g', 'e'];
    proof {
        assert(kw@ =~= lit_package());
    }
    if !occurs_at_exec(s, p, &kw) {
        return None;
    }
    let a = p + 7;
    let b = skip_run(s, a, CharClass::AsciiSpace);
    let c = skip_run(s, b, CharClass::Package);
    let d = skip_run(s, c, CharClass::AsciiSpace);
    if b > a && c > b && d < s.len() && s[d] == ';' {
        Some((b, c))
    } else {
        None
    }
}

fn first_package(s: &Vec<char>) -> (r: Option<(usize, usize)>)
    ensures
        match r {
            None => first_package_from(s@, 0) is None,
            Some(x) => x.0 <= x.1 <= s.len() && first_package_from(s@, 0) == Some(
                s@.subrange(x.0 as int, x.1 as int),
            ),
        },
{
    let mut p: usize = 0;
    while p < s.len()
        invariant
            p <= s.len(),
            first_package_from(s@, 0) == first_package_from(s@, p as int),
        decreases s.len() - p,
    {
        match package_at_exec(s, p) {
            Some(x) => {
                return Some(x);
            },
            None => {},
        }
        p = p + 1;
    }
    proof {
        assert(package_at(s@, s@.len() as int) is None);
        assert(first_package_from(s@, s@.len() + 1int) is None);
    }
    None
}

fn world_at_exec(s: &Vec<char>, p: usize, close: Option<usize>) -> (r: Option<(usize, usize, usize, usize)>)
    requires
        p <= s.len(),
        match close {
            None => last_index_before(s@, '}', s@.len() as int) == -1,
            Some(e) => e < s.len() && e as int == last_index_before(s@, '}', s@.len() as int),
        },
    ensures
        match r {
            None => world_at(s@, p as int) is None,
            Some(x) => x.0 <= x.1 <= s.len() && x.2 <= x.3 <= s.len() && world_at(s@, p as int)
                == Some((s@.subrange(x.0 as int, x.1 as int), s@.subrange(x.2 as int, x.3 as int))),
        },
{
    let kw = ['w', 'o', 'r', 'l', 'd'];
    proof {
        assert(kw@ =~= lit_world());
    }
    if !occurs_at_exec(s, p, &kw) {
        return None;
    }
    let a = p + 5;
    let b = skip_run(s, a, CharClass::AsciiSpace);
    let c = skip_run(s, b, CharClass::Name);
    let d = skip_run(s, c, CharClass::AsciiSpace);
    if !(b > a && c > b && d < s.len() && s[d] == '{') {
        return None;
    }
    match close {
        Some(e) => if e > d {
            Some((b, c, d + 1, e))
        } else {
            None
        },
        None => None,
    }
}

fn first_world(s: &Vec<char>) -> (r: Option<(usize, usize, usize, usize)>)
    ensures
        match r {
            None => first_world_from(s@, 0) is None,
            Some(x) => x.0 <= x.1 <= s.len() && x.2 <= x.3 <= s.len() && first_world_from(s@, 0)
                == Some((s@.subrange(x.0 as int, x.1 as int), s@.subrange(x.2 as int, x.3 as int))),
        },
{
    let close = last_index(s, '}');
    let mut p: usize = 0;
    while p < s.len()
        invariant
            p <= s.len(),
            first_world_from(s@, 0) == first_world_from(s@, p as int),
            match close {
                None => last_index_before(s@, '}', s@.len() as int) == -1,
                Some(e) => e < s.len() && e as int == last_index_before(s@, '}', s@.len() as int),
            },
        decreases s.len() - p,
    {
        match world_at_exec(s, p, close) {
            Some(x) => {
                return Some(x);
            },
            None => {},
        }
        p = p + 1;
    }
    proof {
        assert(world_at(s@, s@.len() as int) is None);
        assert(first_world_from(s@, s@.len() + 1int) is None);
    }
    None
}

/// Parse a WIT source string in the format emitted by wasmtk.
pub fn parse_wit(src: &str) -> (w: ParsedWit)
    ensures
        w@ == parse_wit_spec(src@),
{
    let s = chars_of(src);
    let package_name = match first_package(&s) {
        Some(x) => string_of_range(&s, x.0, x.1),
        None => String::new(),
    };
    let import_kw = ['i', 'm', 'p', 'o', 'r', 't'];
    let export_kw = ['e', 'x', 'p', 'o', 'r', 't'];
    proof {
        assert(import_kw@ =~= lit_import());
        assert(export_kw@ =~= lit_export());
    }
    let (world_name, body) = match first_world(&s) {
        Some(x) => (string_of_range(&s, x.0, x.1), sub_vec(&s, x.2, x.3)),
        None => (String::new(), Vec::new()),
    };
    let imports = decls_of_chars(&body, &import_kw);
    let exports = decls_of_chars(&body, &export_kw);
    ParsedWit { package_name, world_name, imports, exports }
}

// ── Laws ──────────────────────────────────────────────────────────────────────

/// The snake_case form of a name has the name's length, holds no `-`, and
/// keeps every other character in place.
pub proof fn lemma_snake_form(s: Seq<char>)
    ensures
        kebab_snake(s).len() == s.len(),
        forall|i: int| 0 <= i < s.len() ==> #[trigger] kebab_snake(s)[i] != '-',
        forall|i: int| 0 <= i < s.len() && s[i] != '-' ==> #[trigger] kebab_snake(s)[i] == s[i],
{
}

proof fn lemma_dashless_camel_prefix(s: Seq<char>, n: int)
    requires
        0 <= n <= s.len(),
        forall|i: int| 0 <= i < s.len() ==> s[i] != '-',
    ensures
        camel_prefix(s, n) == s.subrange(0, n),
    decreases n,
{
    if n > 0 {
        lemma_dashless_camel_prefix(s, n - 1);
        assert(s.subrange(0, n) =~= s.subrange(0, n - 1) + seq![s[n - 1]]);
    } else {
        assert(s.subrange(0, 0) =~= Seq::<char>::empty());
    }
}

/// A name without `-` is the same in kebab-case, camelCase and snake_case.
pub proof fn lemma_dashless_name(s: Seq<char>)
    requires
        forall|i: int| 0 <= i < s.len() ==> s[i] != '-',
    ensures
        kebab_camel(s) == s,
        kebab_snake(s) == s,
{
    lemma_dashless_camel_prefix(s, s.len() as int);
    assert(s.subrange(0, s.len() as int) =~= s);
    assert(kebab_snake(s) =~= s);
}

/// Every WIT type is read back from its own name.
pub proof fn lemma_type_name_round_trip(t: WitType)
    ensures
        wit_type_named(wit_type_name(t)) == t,
{
    let n = wit_type_name(t);
    assert(!crate::text::is_unicode_space(n[0]));
    assert(!crate::text::is_unicode_space(n[n.len() - 1]));
    assert(crate::text::skip_class(n, 0, CharClass::UnicodeSpace) == 0);
    assert(crate::text::skip_class_back(n, n.len() as int, CharClass::UnicodeSpace) == n.len());
    assert(n.subrange(0, n.len() as int) =~= n);
    assert(trim_spec(n) == n);
}

/// Whether a name is a non-empty run of identifier characters.
pub open spec fn is_identifier(s: Seq<char>) -> bool {
    s.len() > 0 && forall|i: int| 0 <= i < s.len() ==> in_class(#[trigger] s[i], CharClass::Name)
}

/// What every function read from a WIT text satisfies: its name is an
/// identifier, its snake_case and camelCase names are derived from it, and no
/// parameter name holds a `-`.
pub open spec fn well_formed_func(f: WitFuncView) -> bool {
    &&& is_identifier(f.name)
    &&& f.snake_name == kebab_snake(f.name)
    &&& f.camel_name == kebab_camel(f.name)
    &&& forall|j: int, i: int|
        0 <= j < f.params.len() && 0 <= i < f.params[j].name.len() ==> #[trigger] f.params[j].name[i]
            != '-'
}

proof fn lemma_params_from_snake(t: Seq<char>, i: int)
    ensures
        forall|j: int, k: int|
            0 <= j < params_from(t, i).len() && 0 <= k < params_from(t, i)[j].name.len()
                ==> #[trigger] params_from(t, i)[j].name[k] != '-',
    decreases t.len() - i,
{
    if 0 <= i <= t.len() {
        let j = index_of_from(t, ',', i);
        let part = t.subrange(i, j);
        let c = index_of_from(part, ':', 0);
        if c < part.len() {
            lemma_snake_form(trim_spec(part.subrange(0, c)));
        }
        if !(j < i || j >= t.len()) {
            lemma_params_from_snake(t, j + 1);
        }
    }
}

proof fn lemma_decl_name(s: Seq<char>, p: int, kw: Seq<char>)
    requires
        decl_at(s, p, kw) is Some,
    ensures
        is_identifier(decl_at(s, p, kw)->0.name),
{
    let a = p + kw.len();
    let b = skip_class(s, a, CharClass::AsciiSpace);
    crate::text::lemma_skip_class(s, a, CharClass::AsciiSpace);
    crate::text::lemma_skip_class(s, b, CharClass::Name);
}

proof fn lemma_decls_well_formed(s: Seq<char>, kw: Seq<char>, p: int)
    ensures
        forall|j: int| 0 <= j < decls_from(s, kw, p).len() ==> well_formed_func(
            #[trigger] decls_from(s, kw, p)[j],
        ),
    decreases s.len() + 1 - p,
{
    if 0 <= p <= s.len() {
        match decl_at(s, p, kw) {
            Some(m) => {
                if p < m.end <= s.len() {
                    lemma_decls_well_formed(s, kw, m.end);
                    lemma_decl_name(s, p, kw);
                    let t = trim_spec(m.params);
                    if t.len() > 0 {
                        lemma_params_from_snake(t, 0);
                    }
                    let head = func_of_decl(m);
                    assert(well_formed_func(head));
                    let rest = decls_from(s, kw, m.end);
                    assert(decls_from(s, kw, p) == seq![head] + rest);
                    assert forall|j: int| 0 <= j < decls_from(s, kw, p).len() implies well_formed_func(
                        #[trigger] decls_from(s, kw, p)[j],
                    ) by {
                        if j > 0 {
                            assert(decls_from(s, kw, p)[j] == rest[j - 1]);
                        } else {
                            assert(decls_from(s, kw, p)[j] == head);
                        }
                    }
                }
            },
            None => {
                lemma_decls_well_formed(s, kw, p + 1);
                assert(decls_from(s, kw, p) == decls_from(s, kw, p + 1));
            },
        }
    }
}

/// Every import and export that `parse_wit` reads has an identifier for a
/// name, snake_case and camelCase names derived from it, and parameter names
/// without `-`.
pub proof fn lemma_parsed_functions_well_formed(src: Seq<char>)
    ensures
        forall|j: int| 0 <= j < parse_wit_spec(src).imports.len() ==> well_formed_func(
            #[trigger] parse_wit_spec(src).imports[j],
        ),
        forall|j: int| 0 <= j < parse_wit_spec(src).exports.len() ==> well_formed_func(
            #[trigger] parse_wit_spec(src).exports[j],
        ),
{
    let body = match first_world_from(src, 0) {
        Some(w) => w.1,
        None => Seq::empty(),
    };
    lemma_decls_well_formed(body, lit_import(), 0);
    lemma_decls_well_formed(body, lit_export(), 0);
}

/// The part of a declaration before its optional result:
/// `KW NAME: func(PARAMS)`.
pub open spec fn decl_head(kw: Seq<char>, name: Seq<char>, params: Seq<char>) -> Seq<char> {
    kw + seq![' '] + name + seq![':', ' '] + lit_func() + seq!['('] + params + seq![')']
}

/// A declaration written out in the form wasmtk emits: `KW NAME: func(PARAMS);`,
/// or `KW NAME: func(PARAMS) -> RESULT;` when there is a result.
pub open spec fn decl_text(kw: Seq<char>, name: Seq<char>, params: Seq<char>, result: Option<Seq<char>>) -> Seq<
    char,
> {
    match result {
        Some(r) => decl_head(kw, name, params) + seq![' '] + lit_arrow() + seq![' '] + r + seq![';'],
        None => decl_head(kw, name, params) + seq![';'],
    }
}

proof fn lemma_skip_to(s: Seq<char>, i: int, j: int, cls: CharClass)
    requires
        0 <= i <= j <= s.len(),
        forall|k: int| i <= k < j ==> in_class(#[trigger] s[k], cls),
        j < s.len() ==> !in_class(s[j], cls),
    ensures
        skip_class(s, i, cls) == j,
    decreases j - i,
{
    if i < j {
        lemma_skip_to(s, i + 1, j, cls);
    }
}

proof fn lemma_head_layout(kw: Seq<char>, name: Seq<char>, params: Seq<char>)
    ensures
        ({
            let h = decl_head(kw, name, params);
            let kl = kw.len() as int;
            let nl = name.len() as int;
            let pl = params.len() as int;
            &&& h.len() == kl + nl + pl + 9
            &&& h.subrange(0, kl) == kw
            &&& h[kl] == ' '
            &&& forall|k: int| kl + 1 <= k < kl + 1 + nl ==> #[trigger] h[k] == name[k - kl - 1]
            &&& h.subrange(kl + 1, kl + 1 + nl) == name
            &&& h[kl + 1 + nl] == ':'
            &&& h[kl + 2 + nl] == ' '
            &&& h.subrange(kl + 3 + nl, kl + 7 + nl) == lit_func()
            &&& h[kl + 7 + nl] == '('
            &&& forall|k: int| kl + 8 + nl <= k < kl + 8 + nl + pl ==> #[trigger] h[k] == params[k - kl - 8 - nl]
            &&& h.subrange(kl + 8 + nl, kl + 8 + nl + pl) == params
            &&& h[kl + 8 + nl + pl] == ')'
        }),
{
    let h = decl_head(kw, name, params);
    let kl = kw.len() as int;
    let nl = name.len() as int;
    let a = kw + seq![' '];
    let b = a + name;
    let c = b + seq![':', ' '];
    let d = c + lit_func();
    let e = d + seq!['('];
    let f = e + params;
    assert(h == f + seq![')']);
    assert(h.subrange(0, kl) =~= kw);
    assert(h.subrange(kl + 1, kl + 1 + nl) =~= name);
    assert(h.subrange(kl + 3 + nl, kl + 7 + nl) =~= lit_func());
    assert(h.subrange(kl + 8 + nl, kl + 8 + nl + params.len()) =~= params);
}

/// The characters of a written-out declaration, position by position.
pub open spec fn decl_layout(s: Seq<char>, kw: Seq<char>, name: Seq<char>, params: Seq<char>, result: Option<
    Seq<char>,
>) -> bool {
    let kl = kw.len() as int;
    let nl = name.len() as int;
    let pl = params.len() as int;
    let g = kl + 8 + nl + pl;
    &&& s.subrange(0, kl) == kw
    &&& s[kl] == ' '
    &&& forall|k: int| kl + 1 <= k < kl + 1 + nl ==> #[trigger] s[k] == name[k - kl - 1]
    &&& s.subrange(kl + 1, kl + 1 + nl) == name
    &&& s[kl + 1 + nl] == ':'
    &&& s[kl + 2 + nl] == ' '
    &&& s.subrange(kl + 3 + nl, kl + 7 + nl) == lit_func()
    &&& s[kl + 7 + nl] == '('
    &&& forall|k: int| kl + 8 + nl <= k < g ==> #[trigger] s[k] == params[k - kl - 8 - nl]
    &&& s.subrange(kl + 8 + nl, g) == params
    &&& s[g] == ')'
    &&& match result {
        Some(r) => {
            &&& s.len() >= g + r.len() + 6
            &&& s[g + 1] == ' '
            &&& s.subrange(g + 2, g + 4) == lit_arrow()
            &&& s[g + 4] == ' '
            &&& forall|k: int| g + 5 <= k < g + 5 + r.len() ==> #[trigger] s[k] == r[k - g - 5]
            &&& s.subrange(g + 5, g + 5 + r.len()) == r
            &&& s[g + 5 + r.len()] == ';'
        },
        None => s.len() >= g + 2 && s[g + 1] == ';',
    }
}

/// Where a written-out declaration ends: just after its `;`.
pub open spec fn decl_end(kw: Seq<char>, name: Seq<char>, params: Seq<char>, result: Option<Seq<char>>) -> int {
    let g = kw.len() + 8 + name.len() + params.len();
    match result {
        Some(r) => (g + r.len() + 6) as int,
        None => (g + 2) as int,
    }
}

proof fn lemma_decl_text_layout(kw: Seq<char>, name: Seq<char>, params: Seq<char>, result: Option<Seq<char>>)
    ensures
        decl_layout(decl_text(kw, name, params, result), kw, name, params, result),
        decl_text(kw, name, params, result).len() == decl_end(kw, name, params, result),
{
    let s = decl_text(kw, name, params, result);
    let h = decl_head(kw, name, params);
    let kl = kw.len() as int;
    let nl = name.len() as int;
    let pl = params.len() as int;
    let g = kl + 8 + nl + pl;
    lemma_head_layout(kw, name, params);
    assert forall|k: int| 0 <= k < h.len() implies #[trigger] s[k] == h[k] by {}
    assert(s.subrange(0, kl) =~= h.subrange(0, kl));
    assert(s.subrange(kl + 1, kl + 1 + nl) =~= h.subrange(kl + 1, kl + 1 + nl));
    assert(s.subrange(kl + 3 + nl, kl + 7 + nl) =~= h.subrange(kl + 3 + nl, kl + 7 + nl));
    assert(s.subrange(kl + 8 + nl, g) =~= h.subrange(kl + 8 + nl, g));
    assert forall|k: int| kl + 1 <= k < kl + 1 + nl implies #[trigger] s[k] == name[k - kl - 1] by {
        assert(s[k] == h[k]);
    }
    assert forall|k: int| kl + 8 + nl <= k < g implies #[trigger] s[k] == params[k - kl - 8 - nl] by {
        assert(s[k] == h[k]);
    }
    match result {
        Some(r) => {
            let rl = r.len() as int;
            assert(s.subrange(g + 2, g + 4) =~= lit_arrow());
            assert(s.subrange(g + 5, g + 5 + rl) =~= r);
        },
        None => {},
    }
}

/// Where a declaration laid out that way is found, and what it holds.
proof fn lemma_decl_at_layout(s: Seq<char>, kw: Seq<char>, name: Seq<char>, params: Seq<char>, result: Option<
    Seq<char>,
>)
    requires
        decl_layout(s, kw, name, params, result),
        is_keyword(kw),
        is_identifier(name),
        forall|k: int| 0 <= k < params.len() ==> #[trigger] params[k] != ')',
        result matches Some(r) ==> is_identifier(r),
    ensures
        decl_at(s, 0, kw) == Some(DeclMatch { name, params, result, end: decl_end(kw, name, params, result) }),
{
    let kl = kw.len() as int;
    let nl = name.len() as int;
    let pl = params.len() as int;
    let g = kl + 8 + nl + pl;
    assert forall|k: int| kl + 1 <= k < kl + 1 + nl implies in_class(#[trigger] s[k], CharClass::Name) by {
        assert(name[k - kl - 1] == s[k]);
    }
    assert forall|k: int| kl + 8 + nl <= k < g implies in_class(#[trigger] s[k], CharClass::NotCloseParen) by {
        assert(params[k - kl - 8 - nl] == s[k]);
    }
    lemma_skip_to(s, kl, kl + 1, CharClass::AsciiSpace);
    lemma_skip_to(s, kl + 1, kl + 1 + nl, CharClass::Name);
    lemma_skip_to(s, kl + 1 + nl, kl + 1 + nl, CharClass::AsciiSpace);
    lemma_skip_to(s, kl + 2 + nl, kl + 3 + nl, CharClass::AsciiSpace);
    lemma_skip_to(s, kl + 7 + nl, kl + 7 + nl, CharClass::AsciiSpace);
    lemma_skip_to(s, kl + 8 + nl, g, CharClass::NotCloseParen);
    assert(occurs_at(s, 0, kw));
    assert(occurs_at(s, kl + 3 + nl, lit_func()));
    match result {
        Some(r) => {
            let rl = r.len() as int;
            assert forall|k: int| g + 5 <= k < g + 5 + rl implies in_class(#[trigger] s[k], CharClass::Name) by {
                assert(r[k - g - 5] == s[k]);
            }
            lemma_skip_to(s, g + 1, g + 2, CharClass::AsciiSpace);
            lemma_skip_to(s, g + 4, g + 5, CharClass::AsciiSpace);
            lemma_skip_to(s, g + 5, g + 5 + rl, CharClass::Name);
            lemma_skip_to(s, g + 5 + rl, g + 5 + rl, CharClass::AsciiSpace);
            assert(occurs_at(s, g + 2, lit_arrow()));
        },
        None => {
            lemma_skip_to(s, g + 1, g + 1, CharClass::AsciiSpace);
            assert(!occurs_at(s, g + 1, lit_arrow()));
        },
    }
}

/// A WIT text written out: `package PKG;`, a line break, then
/// `world NAME {BODY}`.
pub open spec fn wit_text(pkg: Seq<char>, world: Seq<char>, body: Seq<char>) -> Seq<char> {
    lit_package() + seq![' '] + pkg + seq![';', '\n'] + lit_world() + seq![' '] + world + seq![' ', '{']
        + body + seq!['}']
}

/// Whether a name is a non-empty run of package-id characters.
pub open spec fn is_package_id(s: Seq<char>) -> bool {
    s.len() > 0 && forall|i: int| 0 <= i < s.len() ==> in_class(#[trigger] s[i], CharClass::Package)
}

proof fn lemma_wit_text_layout(pkg: Seq<char>, world: Seq<char>, body: Seq<char>)
    ensures
        ({
            let s = wit_text(pkg, world, body);
            let pl = pkg.len() as int;
            let wl = world.len() as int;
            let bl = body.len() as int;
            &&& s.len() == pl + wl + bl + 19
            &&& s.subrange(0, 7) == lit_package()
            &&& s[7] == ' '
            &&& forall|k: int| 8 <= k < 8 + pl ==> #[trigger] s[k] == pkg[k - 8]
            &&& s.subrange(8, 8 + pl) == pkg
            &&& s[8 + pl] == ';'
            &&& s[9 + pl] == '\n'
            &&& s.subrange(10 + pl, 15 + pl) == lit_world()
            &&& s[15 + pl] == ' '
            &&& forall|k: int| 16 + pl <= k < 16 + pl + wl ==> #[trigger] s[k] == world[k - 16 - pl]
            &&& s.subrange(16 + pl, 16 + pl + wl) == world
            &&& s[16 + pl + wl] == ' '
            &&& s[17 + pl + wl] == '{'
            &&& s.subrange(18 + pl + wl, 18 + pl + wl + bl) == body
            &&& s[18 + pl + wl + bl] == '}'
        }),
{
    let s = wit_text(pkg, world, body);
    let pl = pkg.len() as int;
    let wl = world.len() as int;
    let bl = body.len() as int;
    let a = lit_package() + seq![' '];
    let b = a + pkg;
    let c = b + seq![';', '\n'];
    let d = c + lit_world();
    let e = d + seq![' '];
    let f = e + world;
    let g = f + seq![' ', '{'];
    let h = g + body;
    assert(s == h + seq!['}']);
    assert(s.subrange(0, 7) =~= lit_package());
    assert(s.subrange(8, 8 + pl) =~= pkg);
    assert(s.subrange(10 + pl, 15 + pl) =~= lit_world());
    assert(s.subrange(16 + pl, 16 + pl + wl) =~= world);
    assert(s.subrange(18 + pl + wl, 18 + pl + wl + bl) =~= body);
}

proof fn lemma_first_world_skip(s: Seq<char>, p: int, q: int)
    requires
        0 <= p <= q <= s.len(),
        forall|r: int| p <= r < q ==> #[trigger] world_at(s, r) is None,
    ensures
        first_world_from(s, p) == first_world_from(s, q),
    decreases q - p,
{
    if p < q {
        lemma_first_world_skip(s, p + 1, q);
    }
}

proof fn lemma_wit_text_package(pkg: Seq<char>, world: Seq<char>, body: Seq<char>)
    requires
        is_package_id(pkg),
    ensures
        first_package_from(wit_text(pkg, world, body), 0) == Some(pkg),
{
    let s = wit_text(pkg, world, body);
    let pl = pkg.len() as int;
    lemma_wit_text_layout(pkg, world, body);
    assert forall|k: int| 8 <= k < 8 + pl implies in_class(#[trigger] s[k], CharClass::Package) by {
        assert(pkg[k - 8] == s[k]);
    }
    lemma_skip_to(s, 7, 8, CharClass::AsciiSpace);
    lemma_skip_to(s, 8, 8 + pl, CharClass::Package);
    lemma_skip_to(s, 8 + pl, 8 + pl, CharClass::AsciiSpace);
    assert(occurs_at(s, 0, lit_package()));
    assert(package_at(s, 0) == Some(pkg));
}

proof fn lemma_world_at_start(s: Seq<char>, r: int)
    ensures
        world_at(s, r) is Some ==> occurs_at(s, r, lit_world()) && r + 5 < s.len()
            && crate::text::is_ascii_space(s[r + 5]),
{
}

proof fn lemma_wit_text_prefix(pkg: Seq<char>, world: Seq<char>, body: Seq<char>)
    requires
        is_package_id(pkg),
    ensures
        ({
            let s = wit_text(pkg, world, body);
            let pl = pkg.len() as int;
            &&& s.len() > 15 + pl
            &&& s[2] == 'c'
            &&& s[8 + pl] == ';'
            &&& s[9 + pl] == '\n'
            &&& forall|k: int|
                0 <= k < 9 + pl && k != 7 ==> !crate::text::is_ascii_space(#[trigger] s[k])
        }),
{
    let s = wit_text(pkg, world, body);
    let pl = pkg.len() as int;
    lemma_wit_text_layout(pkg, world, body);
    assert forall|k: int| 0 <= k < 9 + pl && k != 7 implies !crate::text::is_ascii_space(
        #[trigger] s[k],
    ) by {
        if k < 7 {
            assert(s[k] == s.subrange(0, 7)[k]);
        } else if k < 8 + pl {
            assert(pkg[k - 8] == s[k]);
            assert(in_class(pkg[k - 8], CharClass::Package));
        }
    }
    assert(s[2] == s.subrange(0, 7)[2]);
}

proof fn lemma_no_early_world(s: Seq<char>, pl: int, r: int)
    requires
        0 <= pl,
        s.len() > 15 + pl,
        s[2] == 'c',
        s[8 + pl] == ';',
        s[9 + pl] == '\n',
        forall|k: int| 0 <= k < 9 + pl && k != 7 ==> !crate::text::is_ascii_space(#[trigger] s[k]),
        0 <= r < 10 + pl,
    ensures
        !(occurs_at(s, r, lit_world()) && crate::text::is_ascii_space(s[r + 5])),
{
    if occurs_at(s, r, lit_world()) {
        let q = r + 5;
        if q >= 10 + pl {
            // The line break before `world` would lie inside the match.
            assert(s[9 + pl] == s.subrange(r, q)[9 + pl - r]);
        } else if q == 9 + pl {
            // The match would end at the `;`.
            assert(s[8 + pl] == s.subrange(r, q)[4]);
        } else if q == 7 {
            assert(s[2] == s.subrange(r, q)[0]);
        }
    }
}

proof fn lemma_wit_text_world(pkg: Seq<char>, world: Seq<char>, body: Seq<char>)
    requires
        is_identifier(world),
    ensures
        world_at(wit_text(pkg, world, body), 10 + pkg.len() as int) == Some((world, body)),
{
    let s = wit_text(pkg, world, body);
    let pl = pkg.len() as int;
    let wl = world.len() as int;
    let w0 = 10 + pl;
    lemma_wit_text_layout(pkg, world, body);
    assert forall|k: int| w0 + 6 <= k < w0 + 6 + wl implies in_class(#[trigger] s[k], CharClass::Name) by {
        assert(world[k - w0 - 6] == s[k]);
    }
    lemma_skip_to(s, w0 + 5, w0 + 6, CharClass::AsciiSpace);
    lemma_skip_to(s, w0 + 6, w0 + 6 + wl, CharClass::Name);
    lemma_skip_to(s, w0 + 6 + wl, w0 + 7 + wl, CharClass::AsciiSpace);
    assert(last_index_before(s, '}', s.len() as int) == s.len() - 1);
    assert(occurs_at(s, w0, lit_world()));
}

/// A WIT text written in that form is read back as its package id, its world
/// name, and the imports and exports declared in its body.
pub proof fn lemma_wit_read_back(pkg: Seq<char>, world: Seq<char>, body: Seq<char>)
    requires
        is_package_id(pkg),
        is_identifier(world),
    ensures
        parse_wit_spec(wit_text(pkg, world, body)) == (ParsedWitView {
            package_name: pkg,
            world_name: world,
            imports: parse_funcs_spec(body, lit_import()),
            exports: parse_funcs_spec(body, lit_export()),
        }),
{
    let s = wit_text(pkg, world, body);
    let w0 = 10 + pkg.len() as int;
    lemma_wit_text_layout(pkg, world, body);
    lemma_wit_text_package(pkg, world, body);
    lemma_wit_text_prefix(pkg, world, body);
    assert forall|r: int| 0 <= r < w0 implies #[trigger] world_at(s, r) is None by {
        lemma_no_early_world(s, pkg.len() as int, r);
        lemma_world_at_start(s, r);
    }
    lemma_first_world_skip(s, 0, w0);
    lemma_wit_text_world(pkg, world, body);
}

/// A declaration written in the form wasmtk emits is read back as exactly the
/// function it declares, and as nothing else.
pub proof fn lemma_decl_read_back(kw: Seq<char>, name: Seq<char>, params: Seq<char>, result: Option<Seq<char>>)
    requires
        is_keyword(kw),
        is_identifier(name),
        forall|k: int| 0 <= k < params.len() ==> #[trigger] params[k] != ')',
        result matches Some(r) ==> is_identifier(r),
    ensures
        parse_funcs_spec(decl_text(kw, name, params, result), kw) == seq![
            WitFuncView {
                name,
                camel_name: kebab_camel(name),
                snake_name: kebab_snake(name),
                params: parse_params_spec(params),
                result: match result {
                    Some(r) => Some(wit_type_named(r)),
                    None => None,
                },
            },
        ],
{
    let s = decl_text(kw, name, params, result);
    lemma_decl_text_layout(kw, name, params, result);
    lemma_decl_at_layout(s, kw, name, params, result);
    assert(decl_at(s, s.len() as int, kw) is None);
    assert(decls_from(s, kw, s.len() + 1int) =~= Seq::<WitFuncView>::empty());
    assert(decls_from(s, kw, s.len() as int) =~= Seq::<WitFuncView>::empty());
    assert(decls_from(s, kw, 0) =~= seq![func_of_decl(DeclMatch { name, params, result, end: s.len() as int })]);
}

proof fn lemma_camel_prefix_ext(s: Seq<char>, t: Seq<char>, n: int)
    requires
        0 <= n <= s.len(),
        n <= t.len(),
        forall|k: int| 0 <= k < n ==> s[k] == t[k],
    ensures
        camel_prefix(s, n) == camel_prefix(t, n),
    decreases n,
{
    if n > 0 {
        lemma_camel_prefix_ext(s, t, n - 1);
    }
}

proof fn lemma_camel_prefix_head(y: Seq<char>, k: int)
    requires
        1 <= k <= y.len(),
        y[0] != '-',
    ensures
        camel_prefix(y, k).len() >= 1,
        camel_prefix(y, k)[0] == y[0],
    decreases k,
{
    if k > 1 {
        lemma_camel_prefix_head(y, k - 1);
    } else {
        assert(camel_prefix(y, 0) =~= Seq::<char>::empty());
    }
}

proof fn lemma_camel_after_dash_upto(x: Seq<char>, y: Seq<char>, k: int)
    requires
        x.len() > 0,
        x[x.len() - 1] == '-',
        1 <= k <= y.len(),
        y[0] != '-',
    ensures
        camel_prefix(x + y, x.len() + k) == kebab_camel(x) + upper_of(y[0]) + camel_prefix(y, k).drop_first(),
    decreases k,
{
    let s = x + y;
    if k == 1 {
        lemma_camel_prefix_ext(s, x, x.len() as int);
        assert(s[x.len() - 1] == '-');
        assert(s[x.len() as int] == y[0]);
        assert(camel_prefix(y, 0) =~= Seq::<char>::empty());
        assert(camel_prefix(y, 1) =~= seq![y[0]]);
        assert(camel_prefix(y, 1).drop_first() =~= Seq::<char>::empty());
        assert(kebab_camel(x) + upper_of(y[0]) + Seq::<char>::empty() =~= kebab_camel(x) + upper_of(y[0]));
    } else {
        lemma_camel_after_dash_upto(x, y, k - 1);
        lemma_camel_prefix_head(y, k - 1);
        let j = k - 1;
        assert(s[x.len() + j] == y[j]);
        assert(s[x.len() + j - 1] == y[j - 1]);
        assert(camel_piece(s, x.len() + j) == camel_piece(y, j));
        assert(camel_prefix(y, k).drop_first() =~= camel_prefix(y, j).drop_first() + camel_piece(y, j));
        assert(camel_prefix(s, x.len() + k) =~= kebab_camel(x) + upper_of(y[0]) + camel_prefix(y, k).drop_first());
    }
}

/// A dash is dropped and the character after it upper-cased wherever the dash
/// stands: the camelCase form of `a-b` (with `b` not starting with a dash) is
/// the camelCase form of `a`, then the upper-case of `b`'s first character,
/// then the rest of `b`'s camelCase form. For an ASCII lowercase letter that
/// upper-case is the matching capital.
pub proof fn lemma_camel_after_dash(a: Seq<char>, b: Seq<char>)
    requires
        b.len() > 0,
        b[0] != '-',
    ensures
        kebab_camel(a + seq!['-'] + b) == kebab_camel(a) + upper_of(b[0]) + kebab_camel(b).drop_first(),
        kebab_camel(b)[0] == b[0],
        'a' <= b[0] && b[0] <= 'z' ==> kebab_camel(a + seq!['-'] + b) == kebab_camel(a) + seq![
            ((b[0] as u32) - 32) as char,
        ] + kebab_camel(b).drop_first(),
{
    let x = a + seq!['-'];
    lemma_camel_after_dash_upto(x, b, b.len() as int);
    lemma_camel_prefix_head(b, b.len() as int);
    lemma_camel_prefix_ext(x, a, a.len() as int);
    assert(x[a.len() as int] == '-');
    assert(kebab_camel(x) == camel_prefix(x, a.len() as int) + camel_piece(x, a.len() as int));
    assert(kebab_camel(x) =~= kebab_camel(a));
    assert(x + b =~= a + seq!['-'] + b);
}

proof fn lemma_skip_ge(t: Seq<char>, i: int, cls: CharClass)
    ensures
        skip_class(t, i, cls) >= i,
        i <= t.len() ==> skip_class(t, i, cls) <= t.len(),
    decreases t.len() - i,
{
    if 0 <= i < t.len() && in_class(t[i], cls) {
        lemma_skip_ge(t, i + 1, cls);
    }
}

proof fn lemma_skip_shift(w: Seq<char>, t: Seq<char>, i: int, cls: CharClass)
    requires
        0 <= i,
    ensures
        skip_class(w + t, w.len() + i, cls) == w.len() + skip_class(t, i, cls),
    decreases t.len() - i,
{
    let s = w + t;
    if i < t.len() {
        assert(s[w.len() + i] == t[i]);
        if in_class(t[i], cls) {
            lemma_skip_shift(w, t, i + 1, cls);
        }
    }
}

proof fn lemma_occurs_shift(w: Seq<char>, t: Seq<char>, i: int, pat: Seq<char>)
    requires
        0 <= i,
    ensures
        occurs_at(w + t, w.len() + i, pat) == occurs_at(t, i, pat),
{
    if i + pat.len() <= t.len() {
        assert((w + t).subrange(w.len() + i, w.len() + i + pat.len()) =~= t.subrange(i, i + pat.len()));
    }
}

proof fn lemma_sub_shift(w: Seq<char>, t: Seq<char>, a: int, b: int)
    requires
        0 <= a <= b <= t.len(),
    ensures
        (w + t).subrange(w.len() + a, w.len() + b) == t.subrange(a, b),
{
    assert((w + t).subrange(w.len() + a, w.len() + b) =~= t.subrange(a, b));
}

/// A declaration match moved `k` positions on.
pub open spec fn shift_decl(m: Option<DeclMatch>, k: int) -> Option<DeclMatch> {
    match m {
        Some(d) => Some(DeclMatch { name: d.name, params: d.params, result: d.result, end: d.end + k }),
        None => None,
    }
}

#[verifier::rlimit(40)]
proof fn lemma_decl_at_shift(w: Seq<char>, t: Seq<char>, q: int, kw: Seq<char>)
    requires
        0 <= q <= t.len(),
        is_keyword(kw),
        q == 0 ==> w.len() == 0 || !is_word_char(w[w.len() - 1]),
    ensures
        decl_at(w + t, w.len() + q, kw) == shift_decl(decl_at(t, q, kw), w.len() as int),
{
    let s = w + t;
    let o = w.len() as int;
    let p = o + q;
    let a = q + kw.len();
    lemma_occurs_shift(w, t, q, kw);
    if q > 0 {
        assert(s[p - 1] == t[q - 1]);
    } else if w.len() > 0 {
        assert(s[p - 1] == w[w.len() - 1]);
    }
    let b = skip_class(t, a, CharClass::AsciiSpace);
    lemma_skip_ge(t, a, CharClass::AsciiSpace);
    lemma_skip_shift(w, t, a, CharClass::AsciiSpace);
    let c = skip_class(t, b, CharClass::Name);
    lemma_skip_ge(t, b, CharClass::Name);
    lemma_skip_shift(w, t, b, CharClass::Name);
    let d = skip_class(t, c, CharClass::AsciiSpace);
    lemma_skip_ge(t, c, CharClass::AsciiSpace);
    lemma_skip_shift(w, t, c, CharClass::AsciiSpace);
    let e = skip_class(t, d + 1, CharClass::AsciiSpace);
    lemma_skip_ge(t, d + 1, CharClass::AsciiSpace);
    lemma_skip_shift(w, t, d + 1, CharClass::AsciiSpace);
    let f = skip_class(t, e + 4, CharClass::AsciiSpace);
    lemma_skip_ge(t, e + 4, CharClass::AsciiSpace);
    lemma_skip_shift(w, t, e + 4, CharClass::AsciiSpace);
    let g = skip_class(t, f + 1, CharClass::NotCloseParen);
    lemma_skip_ge(t, f + 1, CharClass::NotCloseParen);
    lemma_skip_shift(w, t, f + 1, CharClass::NotCloseParen);
    let h = skip_class(t, g + 1, CharClass::AsciiSpace);
    lemma_skip_ge(t, g + 1, CharClass::AsciiSpace);
    lemma_skip_shift(w, t, g + 1, CharClass::AsciiSpace);
    let i = skip_class(t, h + 2, CharClass::AsciiSpace);
    lemma_skip_ge(t, h + 2, CharClass::AsciiSpace);
    lemma_skip_shift(w, t, h + 2, CharClass::AsciiSpace);
    let j = skip_class(t, i, CharClass::Name);
    lemma_skip_ge(t, i, CharClass::Name);
    lemma_skip_shift(w, t, i, CharClass::Name);
    let k = skip_class(t, j, CharClass::AsciiSpace);
    lemma_skip_ge(t, j, CharClass::AsciiSpace);
    lemma_skip_shift(w, t, j, CharClass::AsciiSpace);
    lemma_occurs_shift(w, t, e, lit_func());
    lemma_occurs_shift(w, t, h, lit_arrow());
    if d < t.len() {
        assert(s[o + d] == t[d]);
    }
    if f < t.len() {
        assert(s[o + f] == t[f]);
    }
    if h < t.len() {
        assert(s[o + h] == t[h]);
    }
    if k < t.len() {
        assert(s[o + k] == t[k]);
    }
    if decl_at(t, q, kw) is Some {
        crate::text::lemma_skip_class(t, a, CharClass::AsciiSpace);
        crate::text::lemma_skip_class(t, b, CharClass::Name);
        crate::text::lemma_skip_class(t, f + 1, CharClass::NotCloseParen);
        lemma_sub_shift(w, t, b, c);
        lemma_sub_shift(w, t, f + 1, g);
        if occurs_at(t, h, lit_arrow()) {
            crate::text::lemma_skip_class(t, i, CharClass::Name);
            lemma_sub_shift(w, t, i, j);
        }
    }
}

proof fn lemma_decls_from_shift(w: Seq<char>, t: Seq<char>, kw: Seq<char>, q: int)
    requires
        0 <= q,
        is_keyword(kw),
        w.len() == 0 || !is_word_char(w[w.len() - 1]),
    ensures
        decls_from(w + t, kw, w.len() + q) == decls_from(t, kw, q),
    decreases t.len() + 1 - q,
{
    if q <= t.len() {
        lemma_decl_at_shift(w, t, q, kw);
        match decl_at(t, q, kw) {
            Some(m) => {
                if q < m.end <= t.len() {
                    lemma_decls_from_shift(w, t, kw, m.end);
                }
            },
            None => {
                lemma_decls_from_shift(w, t, kw, q + 1);
            },
        }
    }
}

proof fn lemma_decls_skip_space(w: Seq<char>, t: Seq<char>, kw: Seq<char>, p: int)
    requires
        0 <= p <= w.len(),
        is_keyword(kw),
        forall|k: int| 0 <= k < w.len() ==> crate::text::is_ascii_space(#[trigger] w[k]),
    ensures
        decls_from(w + t, kw, p) == decls_from(w + t, kw, w.len() as int),
    decreases w.len() - p,
{
    if p < w.len() {
        let s = w + t;
        assert(s[p] == w[p]);
        if occurs_at(s, p, kw) {
            assert(s.subrange(p, p + kw.len())[0] == s[p]);
            assert(is_word_char(kw[0]));
        }
        assert(decl_at(s, p, kw) is None);
        lemma_decls_skip_space(w, t, kw, p + 1);
    }
}

/// Declarations are read wherever they stand after whitespace: any run of
/// whitespace, however long, put before a text changes none of the
/// declarations read from it.
pub proof fn lemma_decls_after_space(w: Seq<char>, t: Seq<char>, kw: Seq<char>)
    requires
        is_keyword(kw),
        forall|k: int| 0 <= k < w.len() ==> crate::text::is_ascii_space(#[trigger] w[k]),
    ensures
        parse_funcs_spec(w + t, kw) == parse_funcs_spec(t, kw),
{
    lemma_decls_skip_space(w, t, kw, 0);
    if w.len() > 0 {
        assert(!is_word_char(w[w.len() - 1]));
    }
    lemma_decls_from_shift(w, t, kw, 0);
}

proof fn lemma_decl_layout_extend(
    d: Seq<char>,
    t: Seq<char>,
    kw: Seq<char>,
    name: Seq<char>,
    params: Seq<char>,
    result: Option<Seq<char>>,
)
    requires
        decl_layout(d, kw, name, params, result),
    ensures
        decl_layout(d + t, kw, name, params, result),
{
    let s = d + t;
    let kl = kw.len() as int;
    let nl = name.len() as int;
    let g = kl + 8 + nl + params.len();
    assert forall|k: int| 0 <= k < d.len() implies #[trigger] s[k] == d[k] by {}
    assert(s.subrange(0, kl) =~= d.subrange(0, kl));
    assert(s.subrange(kl + 1, kl + 1 + nl) =~= d.subrange(kl + 1, kl + 1 + nl));
    assert(s.subrange(kl + 3 + nl, kl + 7 + nl) =~= d.subrange(kl + 3 + nl, kl + 7 + nl));
    assert(s.subrange(kl + 8 + nl, g) =~= d.subrange(kl + 8 + nl, g));
    match result {
        Some(r) => {
            let rl = r.len() as int;
            assert(s.subrange(g + 2, g + 4) =~= d.subrange(g + 2, g + 4));
            assert(s.subrange(g + 5, g + 5 + rl) =~= d.subrange(g + 5, g + 5 + rl));
        },
        None => {},
    }
}

proof fn lemma_decl_layout_last(
    d: Seq<char>,
    kw: Seq<char>,
    name: Seq<char>,
    params: Seq<char>,
    result: Option<Seq<char>>,
)
    requires
        decl_layout(d, kw, name, params, result),
        d.len() == decl_end(kw, name, params, result),
    ensures
        d.len() > 0,
        !is_word_char(d[d.len() - 1]),
{
}

/// A declaration written in the form wasmtk emits, followed by any text, is
/// read as that declaration followed by what the text alone reads as: the
/// declarations of a body are all read, in order, however many there are.
pub proof fn lemma_decl_then_text(
    kw: Seq<char>,
    name: Seq<char>,
    params: Seq<char>,
    result: Option<Seq<char>>,
    t: Seq<char>,
)
    requires
        is_keyword(kw),
        is_identifier(name),
        forall|k: int| 0 <= k < params.len() ==> #[trigger] params[k] != ')',
        result matches Some(r) ==> is_identifier(r),
    ensures
        parse_funcs_spec(decl_text(kw, name, params, result) + t, kw) == seq![
            WitFuncView {
                name,
                camel_name: kebab_camel(name),
                snake_name: kebab_snake(name),
                params: parse_params_spec(params),
                result: match result {
                    Some(r) => Some(wit_type_named(r)),
                    None => None,
                },
            },
        ] + parse_funcs_spec(t, kw),
{
    let d = decl_text(kw, name, params, result);
    let s = d + t;
    lemma_decl_text_layout(kw, name, params, result);
    lemma_decl_layout_extend(d, t, kw, name, params, result);
    lemma_decl_at_layout(s, kw, name, params, result);
    lemma_decl_layout_last(d, kw, name, params, result);
    lemma_decls_from_shift(d, t, kw, 0);
}

} // verus!
