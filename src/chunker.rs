//! Chunking source files at their declarations: functions, methods, types
//! and the like, each with the comments just above it. Declarations are
//! found by their keywords and delimited by brackets (Go, Rust) or by
//! indentation (Python); a declaration nested in another makes a chunk of
//! its own after its parent's.

use vstd::prelude::*;
use crate::config::strings_view;
use crate::text::{
    back_char, back_char_from, same_chars,
    after_last, after_last_from, back_ws, back_ws_from, find_char, find_char_from,
    is_space, is_ws, occurs_at, push_all, push_char, skip_ws, skip_ws_from, slice, str_eq,
    string_of, to_chars, trim, trim_of,
};

verus! {

/// The syntax node kind of a chunk.
#[derive(Debug, Clone, Copy, PartialEq, Eq, Structural)]
pub enum SymbolKind {
    FunctionDeclaration,
    MethodDeclaration,
    TypeDeclaration,
    ConstDeclaration,
    VarDeclaration,
    FunctionItem,
    ImplItem,
    StructItem,
    EnumItem,
    TraitItem,
    ModItem,
    ConstItem,
    TypeItem,
    StaticItem,
    MacroDefinition,
    FunctionDefinition,
    ClassDefinition,
    DecoratedDefinition,
}

pub open spec fn kind_label(k: SymbolKind) -> Seq<char> {
    match k {
        SymbolKind::FunctionDeclaration => "function_declaration"@,
        SymbolKind::MethodDeclaration => "method_declaration"@,
        SymbolKind::TypeDeclaration => "type_declaration"@,
        SymbolKind::ConstDeclaration => "const_declaration"@,
        SymbolKind::VarDeclaration => "var_declaration"@,
        SymbolKind::FunctionItem => "function_item"@,
        SymbolKind::ImplItem => "impl_item"@,
        SymbolKind::StructItem => "struct_item"@,
        SymbolKind::EnumItem => "enum_item"@,
        SymbolKind::TraitItem => "trait_item"@,
        SymbolKind::ModItem => "mod_item"@,
        SymbolKind::ConstItem => "const_item"@,
        SymbolKind::TypeItem => "type_item"@,
        SymbolKind::StaticItem => "static_item"@,
        SymbolKind::MacroDefinition => "macro_definition"@,
        SymbolKind::FunctionDefinition => "function_definition"@,
        SymbolKind::ClassDefinition => "class_definition"@,
        SymbolKind::DecoratedDefinition => "decorated_definition"@,
    }
}

impl SymbolKind {
    /// The node kind's name, such as `"function_declaration"`.
    pub fn to_string(&self) -> (r: String)
        ensures
            r@ == kind_label(*self),
    {
        let s = match self {
            SymbolKind::FunctionDeclaration => "function_declaration",
            SymbolKind::MethodDeclaration => "method_declaration",
            SymbolKind::TypeDeclaration => "type_declaration",
            SymbolKind::ConstDeclaration => "const_declaration",
            SymbolKind::VarDeclaration => "var_declaration",
            SymbolKind::FunctionItem => "function_item",
            SymbolKind::ImplItem => "impl_item",
            SymbolKind::StructItem => "struct_item",
            SymbolKind::EnumItem => "enum_item",
            SymbolKind::TraitItem => "trait_item",
            SymbolKind::ModItem => "mod_item",
            SymbolKind::ConstItem => "const_item",
            SymbolKind::TypeItem => "type_item",
            SymbolKind::StaticItem => "static_item",
            SymbolKind::MacroDefinition => "macro_definition",
            SymbolKind::FunctionDefinition => "function_definition",
            SymbolKind::ClassDefinition => "class_definition",
            SymbolKind::DecoratedDefinition => "decorated_definition",
        };
        s.to_owned()
    }
}

/// The languages that have a chunker.
#[derive(Debug, Clone, Copy, PartialEq, Eq, Structural)]
pub enum Lang {
    Go,
    Rust,
    Python,
}

pub open spec fn lang_of(name: Seq<char>) -> Option<Lang> {
    if name == "go"@ {
        Some(Lang::Go)
    } else if name == "rust"@ {
        Some(Lang::Rust)
    } else if name == "python"@ {
        Some(Lang::Python)
    } else {
        None
    }
}

/// The chunker of a built-in grammar, by its id.
pub open spec fn grammar_lang(g: Seq<char>) -> Option<Lang> {
    if g == "tree-sitter-go"@ {
        Some(Lang::Go)
    } else if g == "tree-sitter-rust"@ {
        Some(Lang::Rust)
    } else if g == "tree-sitter-python"@ {
        Some(Lang::Python)
    } else {
        None
    }
}

fn grammar_named(g: &str) -> (r: Option<Lang>)
    ensures
        r == grammar_lang(g@),
{
    if str_eq(g, "tree-sitter-go") {
        Some(Lang::Go)
    } else if str_eq(g, "tree-sitter-rust") {
        Some(Lang::Rust)
    } else if str_eq(g, "tree-sitter-python") {
        Some(Lang::Python)
    } else {
        None
    }
}

fn lang_named(name: &str) -> (r: Option<Lang>)
    ensures
        r == lang_of(name@),
{
    if str_eq(name, "go") {
        Some(Lang::Go)
    } else if str_eq(name, "rust") {
        Some(Lang::Rust)
    } else if str_eq(name, "python") {
        Some(Lang::Python)
    } else {
        None
    }
}

/// Why a file could not be chunked.
#[derive(Debug, Clone, PartialEq, Eq)]
pub enum ChunkError {
    /// No grammar is loaded under that name.
    NoGrammar(String),
}

impl ChunkError {
    pub fn to_string(&self) -> (r: String)
        ensures
            r@ == "no grammar loaded for "@ + match self {
                ChunkError::NoGrammar(n) => n@,
            },
    {
        match self {
            ChunkError::NoGrammar(n) => {
                let mut r = "no grammar loaded for ".to_owned();
                push_all(&mut r, &to_chars(n.as_str()));
                r
            },
        }
    }
}

/// A contiguous chunk of source code with its metadata.
#[derive(Debug, Clone)]
pub struct Chunk {
    /// The comments above the declaration, each followed by a newline, then
    /// the declaration's text.
    pub content: String,
    pub symbol_name: Option<String>,
    pub symbol_kind: SymbolKind,
    /// First line of the declaration, counted from 1.
    pub start_line: usize,
    /// Last line of the declaration, counted from 1, inclusive.
    pub end_line: usize,
}

pub struct ChunkView {
    pub content: Seq<char>,
    pub symbol_name: Option<Seq<char>>,
    pub symbol_kind: SymbolKind,
    pub start_line: int,
    pub end_line: int,
}

pub open spec fn opt_view(o: Option<String>) -> Option<Seq<char>> {
    match o {
        Some(s) => Some(s@),
        None => None,
    }
}

impl View for Chunk {
    type V = ChunkView;

    open spec fn view(&self) -> ChunkView {
        ChunkView {
            content: self.content@,
            symbol_name: opt_view(self.symbol_name),
            symbol_kind: self.symbol_kind,
            start_line: self.start_line as int,
            end_line: self.end_line as int,
        }
    }
}

pub open spec fn view_chunks(v: Seq<Chunk>) -> Seq<ChunkView> {
    Seq::new(v.len(), |k: int| v[k]@)
}

// ---- lines -------------------------------------------------------------

/// The number of `'\n'` before index `p`.
pub open spec fn newlines(s: Seq<char>, p: int) -> int
    decreases p,
{
    if p <= 0 || p > s.len() {
        0
    } else {
        newlines(s, p - 1) + if s[p - 1] == '\n' {
            1int
        } else {
            0int
        }
    }
}

/// The number of lines of `s`, as `str::lines` counts them: one per line
/// ending, and one more for text after the last.
pub open spec fn line_count(s: Seq<char>) -> int {
    newlines(s, s.len() as int) + if s.len() > 0 && s.last() != '\n' {
        1int
    } else {
        0int
    }
}

proof fn lemma_newlines_mono(s: Seq<char>, a: int, b: int)
    requires
        0 <= a <= b <= s.len(),
    ensures
        newlines(s, a) <= newlines(s, b),
    decreases b - a,
{
    if a < b {
        lemma_newlines_mono(s, a, b - 1);
    }
}

/// A position's line number is at most the number of lines.
proof fn lemma_line_in_range(s: Seq<char>, q: int)
    requires
        0 <= q < s.len(),
    ensures
        newlines(s, q) + 1 <= line_count(s),
{
    lemma_newlines_mono(s, q, s.len() - 1);
}

// ---- positions ---------------------------------------------------------

pub open spec fn is_ident(c: char) -> bool {
    ('a' <= c && c <= 'z') || ('A' <= c && c <= 'Z') || ('0' <= c && c <= '9') || c == '_'
        || c >= '\u{80}'
}

pub open spec fn ident_end(s: Seq<char>, i: int) -> int
    decreases s.len() - i,
{
    if 0 <= i < s.len() && is_ident(s[i]) {
        ident_end(s, i + 1)
    } else {
        i
    }
}

/// The identifier that starts at `j`, if one does.
pub open spec fn name_at(s: Seq<char>, j: int) -> Option<Seq<char>> {
    let e = ident_end(s, j);
    if 0 <= j < e <= s.len() {
        Some(s.subrange(j, e))
    } else {
        None
    }
}

/// `w` stands at index `k` of `s`.
pub open spec fn at(s: Seq<char>, k: int, w: Seq<char>) -> bool {
    0 <= k && k + w.len() <= s.len() && s.subrange(k, k + w.len()) == w
}

/// Nothing but white space stands before `p` on its line.
pub open spec fn first_on_line(s: Seq<char>, p: int) -> bool {
    let q = back_ws(s, p);
    q == 0 || after_last(s, p, '\n') > q
}

/// `p` starts a statement: first on its line, or just after `{`, `;` or `}`.
pub open spec fn statement_start(s: Seq<char>, p: int) -> bool {
    let q = back_ws(s, p);
    first_on_line(s, p) || (0 < q <= s.len() && (s[q - 1] == '{' || s[q - 1] == ';' || s[q
        - 1] == '}'))
}

/// Blanks within a line.
pub open spec fn is_blank(c: char) -> bool {
    c == ' ' || c == '\t' || c == '\r'
}

pub open spec fn skip_blank(s: Seq<char>, i: int) -> int
    decreases s.len() - i,
{
    if 0 <= i < s.len() && is_blank(s[i]) {
        skip_blank(s, i + 1)
    } else {
        i
    }
}

/// Going back from `e`, not below `lo`, past white space.
pub open spec fn trim_back(s: Seq<char>, e: int, lo: int) -> int
    decreases e - lo,
{
    if lo < e <= s.len() && is_ws(s[e - 1]) {
        trim_back(s, e - 1, lo)
    } else {
        e
    }
}

/// Scanning from `i` with nesting `depth`: the index just after the `close`
/// that brings the nesting back to zero, or the end of the text.
pub open spec fn close_from(s: Seq<char>, i: int, depth: int, open: char, close: char) -> int
    decreases s.len() - i,
{
    if i < 0 || i >= s.len() {
        s.len() as int
    } else if s[i] == open {
        close_from(s, i + 1, depth + 1, open, close)
    } else if s[i] == close {
        if depth - 1 == 0 {
            i + 1
        } else {
            close_from(s, i + 1, depth - 1, open, close)
        }
    } else {
        close_from(s, i + 1, depth, open, close)
    }
}

// ---- executable counterparts --------------------------------------------

fn is_ident_char(c: char) -> (r: bool)
    ensures
        r == is_ident(c),
{
    ('a' <= c && c <= 'z') || ('A' <= c && c <= 'Z') || ('0' <= c && c <= '9') || c == '_'
        || c >= '\u{80}'
}

fn ident_end_from(s: &Vec<char>, i: usize) -> (r: usize)
    requires
        i <= s.len(),
    ensures
        r == ident_end(s@, i as int),
        i <= r <= s.len(),
{
    let mut j = i;
    while j < s.len() && is_ident_char(s[j])
        invariant
            i <= j <= s.len(),
            ident_end(s@, j as int) == ident_end(s@, i as int),
        decreases s.len() - j,
    {
        j = j + 1;
    }
    j
}

fn name_from(s: &Vec<char>, j: usize) -> (r: Option<String>)
    requires
        j <= s.len(),
    ensures
        opt_view(r) == name_at(s@, j as int),
{
    let e = ident_end_from(s, j);
    if j < e {
        Some(string_of(&slice(s, j, e)))
    } else {
        None
    }
}

fn at_str(s: &Vec<char>, k: usize, w: &str) -> (r: bool)
    requires
        k <= s.len(),
    ensures
        r == at(s@, k as int, w@),
{
    occurs_at(s, &to_chars(w), k)
}

fn first_on_line_at(s: &Vec<char>, p: usize) -> (r: bool)
    requires
        p <= s.len(),
    ensures
        r == first_on_line(s@, p as int),
{
    let q = back_ws_from(s, p);
    q == 0 || after_last_from(s, p, '\n') > q
}

fn statement_start_at(s: &Vec<char>, p: usize) -> (r: bool)
    requires
        p <= s.len(),
    ensures
        r == statement_start(s@, p as int),
{
    let q = back_ws_from(s, p);
    first_on_line_at(s, p) || (0 < q && (s[q - 1] == '{' || s[q - 1] == ';' || s[q - 1] == '}'))
}

fn skip_blank_from(s: &Vec<char>, i: usize) -> (r: usize)
    requires
        i <= s.len(),
    ensures
        r == skip_blank(s@, i as int),
        i <= r <= s.len(),
{
    let mut j = i;
    while j < s.len() && (s[j] == ' ' || s[j] == '\t' || s[j] == '\r')
        invariant
            i <= j <= s.len(),
            skip_blank(s@, j as int) == skip_blank(s@, i as int),
        decreases s.len() - j,
    {
        j = j + 1;
    }
    j
}

fn trim_back_from(s: &Vec<char>, e: usize, lo: usize) -> (r: usize)
    requires
        lo <= e <= s.len(),
    ensures
        r == trim_back(s@, e as int, lo as int),
        lo <= r <= e,
{
    let mut j = e;
    while j > lo && is_space(s[j - 1])
        invariant
            lo <= j <= e <= s.len(),
            trim_back(s@, j as int, lo as int) == trim_back(s@, e as int, lo as int),
        decreases j,
    {
        j = j - 1;
    }
    j
}

/// The index just after the bracket that closes the one at `b`, or the end
/// of the text.
fn close_after(s: &Vec<char>, b: usize, open: char, close: char) -> (r: usize)
    requires
        b < s.len(),
    ensures
        r == close_from(s@, b as int, 0, open, close),
        b < r <= s.len(),
{
    let mut depth: i128 = 0;
    let mut i = b;
    while i < s.len()
        invariant
            b <= i <= s.len(),
            -(i - b) <= depth <= i - b,
            i == b ==> depth == 0,
            close_from(s@, i as int, depth as int, open, close) == close_from(
                s@,
                b as int,
                0,
                open,
                close,
            ),
        decreases s.len() - i,
    {
        let c = s[i];
        if c == open {
            depth = depth + 1;
        } else if c == close {
            if depth - 1 == 0 {
                return i + 1;
            }
            depth = depth - 1;
        }
        i = i + 1;
    }
    s.len()
}

// ---- what a declaration is ------------------------------------------------

/// A Go declaration keyword at `p`: its kind and the keyword's length.
pub open spec fn go_kind(s: Seq<char>, p: int) -> Option<(SymbolKind, int)> {
    if at(s, p, "func ("@) {
        Some((SymbolKind::MethodDeclaration, 5))
    } else if at(s, p, "func "@) {
        Some((SymbolKind::FunctionDeclaration, 5))
    } else if at(s, p, "type "@) {
        Some((SymbolKind::TypeDeclaration, 5))
    } else if at(s, p, "const "@) {
        Some((SymbolKind::ConstDeclaration, 6))
    } else if at(s, p, "var "@) {
        Some((SymbolKind::VarDeclaration, 4))
    } else {
        None
    }
}

/// Past the Rust modifiers (`pub`, `async`, `unsafe`, ...) that start at `k`.
pub open spec fn skip_mods(s: Seq<char>, k: int) -> int
    decreases s.len() - k,
{
    if at(s, k, "pub "@) && k + 4 <= s.len() {
        skip_mods(s, k + 4)
    } else if at(s, k, "pub(crate) "@) && k + 11 <= s.len() {
        skip_mods(s, k + 11)
    } else if at(s, k, "pub(super) "@) && k + 11 <= s.len() {
        skip_mods(s, k + 11)
    } else if at(s, k, "async "@) && k + 6 <= s.len() {
        skip_mods(s, k + 6)
    } else if at(s, k, "unsafe "@) && k + 7 <= s.len() {
        skip_mods(s, k + 7)
    } else if at(s, k, "extern \"C\" "@) && k + 11 <= s.len() {
        skip_mods(s, k + 11)
    } else if at(s, k, "default "@) && k + 8 <= s.len() {
        skip_mods(s, k + 8)
    } else {
        k
    }
}

/// A Rust item keyword at `k`: its kind and the keyword's length.
pub open spec fn rust_kind(s: Seq<char>, k: int) -> Option<(SymbolKind, int)> {
    if at(s, k, "fn "@) {
        Some((SymbolKind::FunctionItem, 3))
    } else if at(s, k, "const fn "@) {
        Some((SymbolKind::FunctionItem, 9))
    } else if at(s, k, "const unsafe fn "@) {
        Some((SymbolKind::FunctionItem, 16))
    } else if at(s, k, "impl "@) || at(s, k, "impl<"@) {
        Some((SymbolKind::ImplItem, 4))
    } else if at(s, k, "struct "@) {
        Some((SymbolKind::StructItem, 7))
    } else if at(s, k, "enum "@) {
        Some((SymbolKind::EnumItem, 5))
    } else if at(s, k, "trait "@) {
        Some((SymbolKind::TraitItem, 6))
    } else if at(s, k, "mod "@) {
        Some((SymbolKind::ModItem, 4))
    } else if at(s, k, "const "@) {
        Some((SymbolKind::ConstItem, 6))
    } else if at(s, k, "type "@) {
        Some((SymbolKind::TypeItem, 5))
    } else if at(s, k, "static mut "@) {
        Some((SymbolKind::StaticItem, 11))
    } else if at(s, k, "static "@) {
        Some((SymbolKind::StaticItem, 7))
    } else if at(s, k, "macro_rules! "@) {
        Some((SymbolKind::MacroDefinition, 13))
    } else {
        None
    }
}

/// The line before the one holding `p` starts with a decorator.
pub open spec fn after_decorator(s: Seq<char>, p: int) -> bool {
    let ls = after_last(s, p, '\n');
    ls > 0 && {
        let t = skip_blank(s, after_last(s, ls - 1, '\n'));
        0 <= t < s.len() && s[t] == '@'
    }
}

/// A Python definition at `p`: its kind and the keyword's length. A run of
/// decorators makes one decorated definition, from its first decorator.
pub open spec fn py_kind(s: Seq<char>, p: int) -> Option<(SymbolKind, int)> {
    if at(s, p, "def "@) {
        Some((SymbolKind::FunctionDefinition, 4))
    } else if at(s, p, "async def "@) {
        Some((SymbolKind::FunctionDefinition, 10))
    } else if at(s, p, "class "@) {
        Some((SymbolKind::ClassDefinition, 6))
    } else if at(s, p, "@"@) && !after_decorator(s, p) {
        Some((SymbolKind::DecoratedDefinition, 1))
    } else {
        None
    }
}

/// The declaration that starts at `p`: its kind, where its keyword stands,
/// and the keyword's length.
pub open spec fn decl_kind(lang: Lang, s: Seq<char>, p: int) -> Option<(SymbolKind, int, int)> {
    match lang {
        Lang::Go => if statement_start(s, p) {
            match go_kind(s, p) {
                Some(x) => Some((x.0, p, x.1)),
                None => None,
            }
        } else {
            None
        },
        Lang::Rust => if statement_start(s, p) {
            let k = skip_mods(s, p);
            match rust_kind(s, k) {
                Some(x) => Some((x.0, k, x.1)),
                None => None,
            }
        } else {
            None
        },
        Lang::Python => if first_on_line(s, p) {
            match py_kind(s, p) {
                Some(x) => Some((x.0, p, x.1)),
                None => None,
            }
        } else {
            None
        },
    }
}

// ---- where a declaration ends ----------------------------------------------

/// The first `{` or `;` at or after `i` outside parentheses and brackets.
pub open spec fn rust_body(s: Seq<char>, i: int, depth: int) -> int
    decreases s.len() - i,
{
    if i < 0 || i >= s.len() {
        s.len() as int
    } else if depth == 0 && (s[i] == '{' || s[i] == ';') {
        i
    } else if s[i] == '(' || s[i] == '[' {
        rust_body(s, i + 1, depth + 1)
    } else if (s[i] == ')' || s[i] == ']') && depth > 0 {
        rust_body(s, i + 1, depth - 1)
    } else {
        rust_body(s, i + 1, depth)
    }
}

pub open spec fn rust_end(s: Seq<char>, k: int) -> int {
    let b = rust_body(s, k, 0);
    if b < 0 || b >= s.len() {
        s.len() as int
    } else if s[b] == '{' {
        close_in_code(Lang::Rust, s, b, '{', '}')
    } else {
        b + 1
    }
}

/// A function item with a body, not a signature alone.
pub open spec fn rust_has_body(s: Seq<char>, k: int) -> bool {
    let b = rust_body(s, k, 0);
    0 <= b < s.len() && s[b] == '{'
}

pub open spec fn go_end(s: Seq<char>, k: int, kind: SymbolKind, len: int) -> int {
    let le = find_char(s, k, '\n');
    let j = skip_blank(s, k + len);
    if (kind == SymbolKind::TypeDeclaration || kind == SymbolKind::ConstDeclaration || kind
        == SymbolKind::VarDeclaration) && j < le && 0 <= j < s.len() && s[j] == '(' {
        close_in_code(Lang::Go, s, j, '(', ')')
    } else {
        let b = find_char(s, k, '{');
        if b < le {
            close_in_code(Lang::Go, s, b, '{', '}')
        } else {
            le
        }
    }
}

/// From the line starting at `i`, past the decorator lines.
pub open spec fn py_def_line(s: Seq<char>, i: int) -> int
    decreases s.len() - i,
{
    if i < 0 || i >= s.len() {
        i
    } else {
        let t = skip_blank(s, i);
        if 0 <= t < s.len() && s[t] == '@' {
            let le = find_char(s, t, '\n');
            if i <= le < s.len() {
                py_def_line(s, le + 1)
            } else {
                s.len() as int
            }
        } else {
            i
        }
    }
}

/// The end of the last line, from the line starting at `i` on, that is
/// indented more than `col`, before a line that is not and is not blank;
/// `last` when there is none.
pub open spec fn py_block(s: Seq<char>, i: int, col: int, last: int) -> int
    decreases s.len() - i,
{
    if i < 0 || i >= s.len() {
        last
    } else {
        let le = find_char(s, i, '\n');
        let t = skip_blank(s, i);
        if le < i {
            last
        } else if t >= le {
            if le < s.len() {
                py_block(s, le + 1, col, last)
            } else {
                last
            }
        } else if t - i > col {
            if le < s.len() {
                py_block(s, le + 1, col, le)
            } else {
                le
            }
        } else {
            last
        }
    }
}

pub open spec fn py_end(s: Seq<char>, p: int, kind: SymbolKind) -> int {
    let ls = after_last(s, p, '\n');
    let dl = if kind == SymbolKind::DecoratedDefinition {
        py_def_line(s, ls)
    } else {
        ls
    };
    let le = find_char(s, dl, '\n');
    if 0 <= le < s.len() {
        py_block(s, le + 1, p - ls, le)
    } else {
        le
    }
}

pub open spec fn raw_end(lang: Lang, s: Seq<char>, p: int, kind: SymbolKind, k: int, len: int) -> int {
    match lang {
        Lang::Go => go_end(s, k, kind, len),
        Lang::Rust => rust_end(s, k),
        Lang::Python => py_end(s, p, kind),
    }
}

/// The end of the declaration's text: within the text, past `p`, without
/// trailing white space.
pub open spec fn decl_end(lang: Lang, s: Seq<char>, p: int, kind: SymbolKind, k: int, len: int) -> int {
    let e = raw_end(lang, s, p, kind, k, len);
    let e1 = if e <= p {
        p + 1
    } else if e > s.len() {
        s.len() as int
    } else {
        e
    };
    trim_back(s, e1, p + 1)
}

// ---- names ----------------------------------------------------------------

/// The first index at or after `i` where `w` stands, or the length.
pub open spec fn find_text(t: Seq<char>, w: Seq<char>, i: int) -> int
    decreases t.len() - i,
{
    if i < 0 || i >= t.len() || i + w.len() > t.len() {
        t.len() as int
    } else if t.subrange(i, i + w.len()) == w {
        i
    } else {
        find_text(t, w, i + 1)
    }
}

/// The name of an `impl` whose header starts at `i`: `"<trait> for <type>"`
/// or `"<type>"`.
pub open spec fn impl_name(s: Seq<char>, i: int) -> Option<Seq<char>> {
    if i < 0 || i > s.len() {
        None
    } else {
    let i2 = if 0 <= i < s.len() && s[i] == '<' {
        close_from(s, i, 0, '<', '>')
    } else {
        i
    };
    let h = crate::text::find_any(s, i2, seq!['{', ';', '\n']);
    let head = trim(s.subrange(i2, h));
    let f = find_text(head, " for "@, 0);
    if f < head.len() {
        Some(trim(head.subrange(0, f)) + " for "@ + trim(head.subrange(f + 5, head.len() as int)))
    } else if head.len() > 0 {
        Some(head)
    } else {
        None
    }
    }
}

pub open spec fn def_name(s: Seq<char>, t: int) -> Option<Seq<char>> {
    if at(s, t, "def "@) {
        name_at(s, skip_ws(s, t + 4))
    } else if at(s, t, "async def "@) {
        name_at(s, skip_ws(s, t + 10))
    } else if at(s, t, "class "@) {
        name_at(s, skip_ws(s, t + 6))
    } else {
        None
    }
}

/// The declaration's `name` field; for a Rust `impl`, its trait and type;
/// for a decorated Python definition, the name of the definition.
pub open spec fn decl_name(lang: Lang, s: Seq<char>, p: int, kind: SymbolKind, k: int, len: int) -> Option<Seq<char>> {
    match lang {
        Lang::Go => if kind == SymbolKind::FunctionDeclaration {
            name_at(s, skip_ws(s, k + len))
        } else if kind == SymbolKind::MethodDeclaration {
            let r = find_char(s, k, ')');
            if 0 <= r < s.len() {
                name_at(s, skip_ws(s, r + 1))
            } else {
                None
            }
        } else {
            None
        },
        Lang::Rust => if kind == SymbolKind::ImplItem {
            impl_name(s, k + 4)
        } else {
            name_at(s, skip_ws(s, k + len))
        },
        Lang::Python => if kind == SymbolKind::DecoratedDefinition {
            def_name(s, skip_blank(s, py_def_line(s, after_last(s, p, '\n'))))
        } else {
            def_name(s, p)
        },
    }
}

// ---- comments -------------------------------------------------------------

pub open spec fn is_comment(lang: Lang, t: Seq<char>) -> bool {
    match lang {
        Lang::Python => at(t, 0, "#"@),
        _ => at(t, 0, "//"@) || at(t, 0, "/*"@) || at(t, 0, "*"@),
    }
}

/// The comment lines just above the line starting at `ls`, blank lines
/// between them passed over, trimmed, in order.
pub open spec fn comments_before(lang: Lang, s: Seq<char>, ls: int) -> Seq<Seq<char>>
    decreases ls,
{
    if ls <= 0 || ls > s.len() {
        Seq::empty()
    } else {
        let pls = after_last(s, ls - 1, '\n');
        if pls < 0 || pls >= ls {
            Seq::empty()
        } else {
            let t = trim(s.subrange(pls, ls - 1));
            if t.len() == 0 {
                comments_before(lang, s, pls)
            } else if is_comment(lang, t) {
                comments_before(lang, s, pls).push(t)
            } else {
                Seq::empty()
            }
        }
    }
}

/// Each comment followed by a newline.
pub open spec fn comment_block(cs: Seq<Seq<char>>) -> Seq<char>
    decreases cs.len(),
{
    if cs.len() == 0 {
        Seq::empty()
    } else {
        comment_block(cs.drop_last()) + cs.last() + seq!['\n']
    }
}

// ---- strings and comments ---------------------------------------------------

/// Where the scanner stands: in code, in a comment, or in a string literal
/// opened by the quote it carries.
#[derive(Debug, Clone, Copy, PartialEq, Eq, Structural)]
pub enum LexState {
    Code,
    LineComment,
    BlockOpen,
    BlockComment,
    BlockClose,
    Str(char),
    StrEscape(char),
    Raw(char),
    TripleOpen1(char),
    TripleOpen2(char),
    Triple(char),
    TripleEscape(char),
    TripleClose1(char),
    TripleClose2(char),
}

/// The character at `i`, or a NUL past the end.
pub open spec fn char_at(s: Seq<char>, i: int) -> char {
    if 0 <= i < s.len() {
        s[i]
    } else {
        '\0'
    }
}

/// The state after the character at `i`, from state `st`. Go and Rust have
/// `//` and `/* */` comments and `"` strings; Go also has rune literals in
/// `'` and raw strings in backquotes. Python has `#` comments and strings in
/// `"` or `'`, single or tripled. A single-quoted string of Go or Python
/// ends at the end of its line.
pub open spec fn next_state(lang: Lang, st: LexState, s: Seq<char>, i: int) -> LexState {
    let c = char_at(s, i);
    let c1 = char_at(s, i + 1);
    let c2 = char_at(s, i + 2);
    match st {
        LexState::Code => if lang == Lang::Python {
            if c == '#' {
                LexState::LineComment
            } else if (c == '"' || c == '\'') && c1 == c && c2 == c {
                LexState::TripleOpen1(c)
            } else if c == '"' || c == '\'' {
                LexState::Str(c)
            } else {
                LexState::Code
            }
        } else {
            if c == '/' && c1 == '/' {
                LexState::LineComment
            } else if c == '/' && c1 == '*' {
                LexState::BlockOpen
            } else if c == '"' {
                LexState::Str(c)
            } else if lang == Lang::Go && c == '\'' {
                LexState::Str(c)
            } else if lang == Lang::Go && c == '`' {
                LexState::Raw(c)
            } else {
                LexState::Code
            }
        },
        LexState::LineComment => if c == '\n' {
            LexState::Code
        } else {
            LexState::LineComment
        },
        LexState::BlockOpen => LexState::BlockComment,
        LexState::BlockComment => if c == '*' && c1 == '/' {
            LexState::BlockClose
        } else {
            LexState::BlockComment
        },
        LexState::BlockClose => LexState::Code,
        LexState::Str(q) => if c == '\\' {
            LexState::StrEscape(q)
        } else if c == q || (c == '\n' && lang != Lang::Rust) {
            LexState::Code
        } else {
            LexState::Str(q)
        },
        LexState::StrEscape(q) => LexState::Str(q),
        LexState::Raw(q) => if c == q {
            LexState::Code
        } else {
            LexState::Raw(q)
        },
        LexState::TripleOpen1(q) => LexState::TripleOpen2(q),
        LexState::TripleOpen2(q) => LexState::Triple(q),
        LexState::Triple(q) => if c == '\\' {
            LexState::TripleEscape(q)
        } else if c == q && c1 == q && c2 == q {
            LexState::TripleClose1(q)
        } else {
            LexState::Triple(q)
        },
        LexState::TripleEscape(q) => LexState::Triple(q),
        LexState::TripleClose1(q) => LexState::TripleClose2(q),
        LexState::TripleClose2(_) => LexState::Code,
    }
}

/// The state before the character at `p`, scanning from the start.
pub open spec fn state_at(lang: Lang, s: Seq<char>, p: int) -> LexState
    decreases p,
{
    if p <= 0 || p > s.len() {
        LexState::Code
    } else {
        next_state(lang, state_at(lang, s, p - 1), s, p - 1)
    }
}

fn char_at_exec(s: &Vec<char>, i: usize) -> (r: char)
    ensures
        r == char_at(s@, i as int),
{
    if i < s.len() {
        s[i]
    } else {
        '\0'
    }
}

fn next_state_at(lang: Lang, st: LexState, s: &Vec<char>, i: usize) -> (r: LexState)
    requires
        i < s.len(),
    ensures
        r == next_state(lang, st, s@, i as int),
{
    let c = s[i];
    let c1 = char_at_exec(s, i + 1);
    let c2 = if i + 1 < s.len() {
        char_at_exec(s, i + 2)
    } else {
        '\0'
    };
    match st {
        LexState::Code => if lang == Lang::Python {
            if c == '#' {
                LexState::LineComment
            } else if (c == '"' || c == '\'') && c1 == c && c2 == c {
                LexState::TripleOpen1(c)
            } else if c == '"' || c == '\'' {
                LexState::Str(c)
            } else {
                LexState::Code
            }
        } else {
            if c == '/' && c1 == '/' {
                LexState::LineComment
            } else if c == '/' && c1 == '*' {
                LexState::BlockOpen
            } else if c == '"' {
                LexState::Str(c)
            } else if lang == Lang::Go && c == '\'' {
                LexState::Str(c)
            } else if lang == Lang::Go && c == '`' {
                LexState::Raw(c)
            } else {
                LexState::Code
            }
        },
        LexState::LineComment => if c == '\n' {
            LexState::Code
        } else {
            LexState::LineComment
        },
        LexState::BlockOpen => LexState::BlockComment,
        LexState::BlockComment => if c == '*' && c1 == '/' {
            LexState::BlockClose
        } else {
            LexState::BlockComment
        },
        LexState::BlockClose => LexState::Code,
        LexState::Str(q) => if c == '\\' {
            LexState::StrEscape(q)
        } else if c == q || (c == '\n' && lang != Lang::Rust) {
            LexState::Code
        } else {
            LexState::Str(q)
        },
        LexState::StrEscape(q) => LexState::Str(q),
        LexState::Raw(q) => if c == q {
            LexState::Code
        } else {
            LexState::Raw(q)
        },
        LexState::TripleOpen1(q) => LexState::TripleOpen2(q),
        LexState::TripleOpen2(q) => LexState::Triple(q),
        LexState::Triple(q) => if c == '\\' {
            LexState::TripleEscape(q)
        } else if c == q && c1 == q && c2 == q {
            LexState::TripleClose1(q)
        } else {
            LexState::Triple(q)
        },
        LexState::TripleEscape(q) => LexState::Triple(q),
        LexState::TripleClose1(q) => LexState::TripleClose2(q),
        LexState::TripleClose2(_) => LexState::Code,
    }
}


/// Scanning from `i` in state `st` with nesting `depth`: the index just
/// after the `close` in code that brings the nesting back to zero, or the
/// end of the text. Brackets in comments and string literals do not count.
pub open spec fn close_code(
    lang: Lang,
    s: Seq<char>,
    i: int,
    st: LexState,
    depth: int,
    open: char,
    close: char,
) -> int
    decreases s.len() - i,
{
    if i < 0 || i >= s.len() {
        s.len() as int
    } else {
        let nst = next_state(lang, st, s, i);
        if st == LexState::Code && s[i] == open {
            close_code(lang, s, i + 1, nst, depth + 1, open, close)
        } else if st == LexState::Code && s[i] == close {
            if depth - 1 == 0 {
                i + 1
            } else {
                close_code(lang, s, i + 1, nst, depth - 1, open, close)
            }
        } else {
            close_code(lang, s, i + 1, nst, depth, open, close)
        }
    }
}

/// The index just after the bracket in code that closes the one at `b`.
pub open spec fn close_in_code(lang: Lang, s: Seq<char>, b: int, open: char, close: char) -> int {
    close_code(lang, s, b, state_at(lang, s, b), 0, open, close)
}

fn state_before(lang: Lang, s: &Vec<char>, b: usize) -> (r: LexState)
    requires
        b <= s.len(),
    ensures
        r == state_at(lang, s@, b as int),
{
    let mut st = LexState::Code;
    let mut i: usize = 0;
    while i < b
        invariant
            i <= b <= s.len(),
            st == state_at(lang, s@, i as int),
        decreases b - i,
    {
        st = next_state_at(lang, st, s, i);
        i = i + 1;
    }
    st
}

fn close_after_code(lang: Lang, s: &Vec<char>, b: usize, open: char, close: char) -> (r: usize)
    requires
        b < s.len(),
    ensures
        r == close_in_code(lang, s@, b as int, open, close),
        b < r <= s.len(),
{
    let mut st = state_before(lang, s, b);
    let mut depth: i128 = 0;
    let mut i = b;
    while i < s.len()
        invariant
            b <= i <= s.len(),
            -(i - b) <= depth <= i - b,
            i == b ==> depth == 0 && st == state_at(lang, s@, b as int),
            close_code(lang, s@, i as int, st, depth as int, open, close) == close_in_code(
                lang,
                s@,
                b as int,
                open,
                close,
            ),
        decreases s.len() - i,
    {
        let c = s[i];
        let nst = next_state_at(lang, st, s, i);
        if st == LexState::Code && c == open {
            depth = depth + 1;
        } else if st == LexState::Code && c == close {
            if depth - 1 == 0 {
                return i + 1;
            }
            depth = depth - 1;
        }
        st = nst;
        i = i + 1;
    }
    s.len()
}

// ---- chunks -----------------------------------------------------------------

/// The chunk of the declaration that starts at `p`, if one does.
pub open spec fn decl_at(lang: Lang, s: Seq<char>, p: int) -> Option<ChunkView> {
    match decl_kind(lang, s, p) {
        None => None,
        Some(d) => if lang == Lang::Rust && d.0 == SymbolKind::FunctionItem && !rust_has_body(
            s,
            d.1,
        ) {
            None
        } else {
            let e = decl_end(lang, s, p, d.0, d.1, d.2);
            let cs = if first_on_line(s, p) {
                comments_before(lang, s, after_last(s, p, '\n'))
            } else {
                Seq::empty()
            };
            Some(
                ChunkView {
                    content: comment_block(cs) + s.subrange(p, e),
                    symbol_name: decl_name(lang, s, p, d.0, d.1, d.2),
                    symbol_kind: d.0,
                    start_line: newlines(s, p) + 1,
                    end_line: newlines(s, e - 1) + 1,
                },
            )
        },
    }
}

/// The chunks of the declarations that start in code (not in a comment or
/// a string literal) at or after `p`, in order.
pub open spec fn chunks_from(lang: Lang, s: Seq<char>, p: int) -> Seq<ChunkView>
    decreases s.len() - p,
{
    if p < 0 || p >= s.len() {
        Seq::empty()
    } else {
        let rest = chunks_from(lang, s, p + 1);
        match if state_at(lang, s, p) == LexState::Code {
            decl_at(lang, s, p)
        } else {
            None
        } {
            Some(c) => seq![c] + rest,
            None => rest,
        }
    }
}

/// The chunks of a source text: one per declaration, in the order their
/// first characters stand, parents before what they contain.
pub open spec fn source_chunks(lang: Lang, s: Seq<char>) -> Seq<ChunkView> {
    chunks_from(lang, s, 0)
}

// ---- executable detection ----------------------------------------------------

pub open spec fn int_pair(r: Option<(SymbolKind, usize)>) -> Option<(SymbolKind, int)> {
    match r {
        Some(x) => Some((x.0, x.1 as int)),
        None => None,
    }
}

pub open spec fn int_triple(r: Option<(SymbolKind, usize, usize)>) -> Option<(SymbolKind, int, int)> {
    match r {
        Some(x) => Some((x.0, x.1 as int, x.2 as int)),
        None => None,
    }
}

fn go_kind_at(s: &Vec<char>, p: usize) -> (r: Option<(SymbolKind, usize)>)
    requires
        p <= s.len(),
    ensures
        int_pair(r) == go_kind(s@, p as int),
{
    if at_str(s, p, "func (") {
        Some((SymbolKind::MethodDeclaration, 5))
    } else if at_str(s, p, "func ") {
        Some((SymbolKind::FunctionDeclaration, 5))
    } else if at_str(s, p, "type ") {
        Some((SymbolKind::TypeDeclaration, 5))
    } else if at_str(s, p, "const ") {
        Some((SymbolKind::ConstDeclaration, 6))
    } else if at_str(s, p, "var ") {
        Some((SymbolKind::VarDeclaration, 4))
    } else {
        None
    }
}

fn skip_mods_at(s: &Vec<char>, k: usize) -> (r: usize)
    requires
        k <= s.len(),
    ensures
        r == skip_mods(s@, k as int),
        k <= r <= s.len(),
{
    let mut j = k;
    loop
        invariant
            k <= j <= s.len(),
            skip_mods(s@, j as int) == skip_mods(s@, k as int),
        decreases s.len() - j,
    {
        let n: usize = if at_str(s, j, "pub ") && 4 <= s.len() - j {
            4
        } else if at_str(s, j, "pub(crate) ") && 11 <= s.len() - j {
            11
        } else if at_str(s, j, "pub(super) ") && 11 <= s.len() - j {
            11
        } else if at_str(s, j, "async ") && 6 <= s.len() - j {
            6
        } else if at_str(s, j, "unsafe ") && 7 <= s.len() - j {
            7
        } else if at_str(s, j, "extern \"C\" ") && 11 <= s.len() - j {
            11
        } else if at_str(s, j, "default ") && 8 <= s.len() - j {
            8
        } else {
            0
        };
        if n == 0 {
            return j;
        }
        j = j + n;
    }
}

fn rust_kind_at(s: &Vec<char>, k: usize) -> (r: Option<(SymbolKind, usize)>)
    requires
        k <= s.len(),
    ensures
        int_pair(r) == rust_kind(s@, k as int),
{
    if at_str(s, k, "fn ") {
        Some((SymbolKind::FunctionItem, 3))
    } else if at_str(s, k, "const fn ") {
        Some((SymbolKind::FunctionItem, 9))
    } else if at_str(s, k, "const unsafe fn ") {
        Some((SymbolKind::FunctionItem, 16))
    } else if at_str(s, k, "impl ") || at_str(s, k, "impl<") {
        Some((SymbolKind::ImplItem, 4))
    } else if at_str(s, k, "struct ") {
        Some((SymbolKind::StructItem, 7))
    } else if at_str(s, k, "enum ") {
        Some((SymbolKind::EnumItem, 5))
    } else if at_str(s, k, "trait ") {
        Some((SymbolKind::TraitItem, 6))
    } else if at_str(s, k, "mod ") {
        Some((SymbolKind::ModItem, 4))
    } else if at_str(s, k, "const ") {
        Some((SymbolKind::ConstItem, 6))
    } else if at_str(s, k, "type ") {
        Some((SymbolKind::TypeItem, 5))
    } else if at_str(s, k, "static mut ") {
        Some((SymbolKind::StaticItem, 11))
    } else if at_str(s, k, "static ") {
        Some((SymbolKind::StaticItem, 7))
    } else if at_str(s, k, "macro_rules! ") {
        Some((SymbolKind::MacroDefinition, 13))
    } else {
        None
    }
}

fn after_decorator_at(s: &Vec<char>, p: usize) -> (r: bool)
    requires
        p <= s.len(),
    ensures
        r == after_decorator(s@, p as int),
{
    let ls = after_last_from(s, p, '\n');
    if ls == 0 {
        return false;
    }
    let t = skip_blank_from(s, after_last_from(s, ls - 1, '\n'));
    t < s.len() && s[t] == '@'
}

fn py_kind_at(s: &Vec<char>, p: usize) -> (r: Option<(SymbolKind, usize)>)
    requires
        p <= s.len(),
    ensures
        int_pair(r) == py_kind(s@, p as int),
{
    if at_str(s, p, "def ") {
        Some((SymbolKind::FunctionDefinition, 4))
    } else if at_str(s, p, "async def ") {
        Some((SymbolKind::FunctionDefinition, 10))
    } else if at_str(s, p, "class ") {
        Some((SymbolKind::ClassDefinition, 6))
    } else if at_str(s, p, "@") && !after_decorator_at(s, p) {
        Some((SymbolKind::DecoratedDefinition, 1))
    } else {
        None
    }
}

fn decl_kind_at(lang: Lang, s: &Vec<char>, p: usize) -> (r: Option<(SymbolKind, usize, usize)>)
    requires
        p <= s.len(),
    ensures
        int_triple(r) == decl_kind(lang, s@, p as int),
        match r {
            Some(x) => p <= x.1 <= s.len() && x.2 <= 16,
            None => true,
        },
{
    match lang {
        Lang::Go => {
            if !statement_start_at(s, p) {
                return None;
            }
            match go_kind_at(s, p) {
                Some(x) => Some((x.0, p, x.1)),
                None => None,
            }
        },
        Lang::Rust => {
            if !statement_start_at(s, p) {
                return None;
            }
            let k = skip_mods_at(s, p);
            match rust_kind_at(s, k) {
                Some(x) => Some((x.0, k, x.1)),
                None => None,
            }
        },
        Lang::Python => {
            if !first_on_line_at(s, p) {
                return None;
            }
            match py_kind_at(s, p) {
                Some(x) => Some((x.0, p, x.1)),
                None => None,
            }
        },
    }
}

// ---- executable extents --------------------------------------------------------

fn rust_body_at(s: &Vec<char>, i: usize) -> (r: usize)
    requires
        i <= s.len(),
    ensures
        r == rust_body(s@, i as int, 0),
        i <= r <= s.len(),
{
    let mut depth: usize = 0;
    let mut j = i;
    while j < s.len()
        invariant
            i <= j <= s.len(),
            depth <= j - i,
            rust_body(s@, j as int, depth as int) == rust_body(s@, i as int, 0),
        decreases s.len() - j,
    {
        let c = s[j];
        if depth == 0 && (c == '{' || c == ';') {
            return j;
        } else if c == '(' || c == '[' {
            depth = depth + 1;
        } else if (c == ')' || c == ']') && depth > 0 {
            depth = depth - 1;
        }
        j = j + 1;
    }
    s.len()
}

fn rust_end_at(s: &Vec<char>, k: usize) -> (r: usize)
    requires
        k <= s.len(),
    ensures
        r == rust_end(s@, k as int),
{
    let b = rust_body_at(s, k);
    if b >= s.len() {
        s.len()
    } else if s[b] == '{' {
        close_after_code(Lang::Rust, s, b, '{', '}')
    } else {
        b + 1
    }
}

fn rust_has_body_at(s: &Vec<char>, k: usize) -> (r: bool)
    requires
        k <= s.len(),
    ensures
        r == rust_has_body(s@, k as int),
{
    let b = rust_body_at(s, k);
    b < s.len() && s[b] == '{'
}

/// `skip_ws` from `i`, which may lie past the end.
fn skip_ws_past(s: &Vec<char>, i: usize) -> (r: usize)
    ensures
        r == skip_ws(s@, i as int),
        i <= r,
{
    if i <= s.len() {
        skip_ws_from(s, i)
    } else {
        i
    }
}

fn go_end_at(s: &Vec<char>, k: usize, kind: SymbolKind, len: usize) -> (r: usize)
    requires
        k <= s.len(),
        len <= 16,
    ensures
        r == go_end(s@, k as int, kind, len as int),
{
    let le = find_char_from(s, k, '\n');
    let grouped = if (kind == SymbolKind::TypeDeclaration || kind == SymbolKind::ConstDeclaration
        || kind == SymbolKind::VarDeclaration) && len <= s.len() - k {
        let j = skip_blank_from(s, k + len);
        if j < le && j < s.len() && s[j] == '(' {
            Some(j)
        } else {
            None
        }
    } else {
        None
    };
    if let Some(j) = grouped {
        close_after_code(Lang::Go, s, j, '(', ')')
    } else {
        let b = find_char_from(s, k, '{');
        if b < le {
            close_after_code(Lang::Go, s, b, '{', '}')
        } else {
            le
        }
    }
}

fn py_def_line_at(s: &Vec<char>, i: usize) -> (r: usize)
    requires
        i <= s.len(),
    ensures
        r == py_def_line(s@, i as int),
        r <= s.len(),
{
    let mut j = i;
    while j < s.len()
        invariant
            j <= s.len(),
            py_def_line(s@, j as int) == py_def_line(s@, i as int),
        decreases s.len() - j,
    {
        let t = skip_blank_from(s, j);
        if t < s.len() && s[t] == '@' {
            let le = find_char_from(s, t, '\n');
            if le < s.len() {
                j = le + 1;
            } else {
                return s.len();
            }
        } else {
            return j;
        }
    }
    j
}

fn py_block_at(s: &Vec<char>, i: usize, col: usize, last_line: usize) -> (r: usize)
    requires
        i <= s.len(),
        last_line <= s.len(),
    ensures
        r == py_block(s@, i as int, col as int, last_line as int),
        r <= s.len(),
{
    let ghost last0 = last_line;
    let mut j = i;
    let mut last = last_line;
    while j < s.len()
        invariant
            j <= s.len(),
            last <= s.len(),
            last0 == last_line,
            py_block(s@, j as int, col as int, last as int) == py_block(
                s@,
                i as int,
                col as int,
                last0 as int,
            ),
        decreases s.len() - j,
    {
        let le = find_char_from(s, j, '\n');
        let t = skip_blank_from(s, j);
        if t >= le {
            if le < s.len() {
                j = le + 1;
            } else {
                return last;
            }
        } else if t - j > col {
            if le < s.len() {
                last = le;
                j = le + 1;
            } else {
                return le;
            }
        } else {
            return last;
        }
    }
    last
}


fn py_end_at(s: &Vec<char>, p: usize, kind: SymbolKind) -> (r: usize)
    requires
        p < s.len(),
    ensures
        r == py_end(s@, p as int, kind),
        r <= s.len(),
{
    let ls = after_last_from(s, p, '\n');
    let dl = if kind == SymbolKind::DecoratedDefinition {
        py_def_line_at(s, ls)
    } else {
        ls
    };
    let le = find_char_from(s, dl, '\n');
    if le < s.len() {
        py_block_at(s, le + 1, p - ls, le)
    } else {
        le
    }
}

fn decl_end_at(lang: Lang, s: &Vec<char>, p: usize, kind: SymbolKind, k: usize, len: usize) -> (r: usize)
    requires
        p < s.len(),
        p <= k <= s.len(),
        len <= 16,
    ensures
        r == decl_end(lang, s@, p as int, kind, k as int, len as int),
        p + 1 <= r <= s.len(),
{
    let e = match lang {
        Lang::Go => go_end_at(s, k, kind, len),
        Lang::Rust => rust_end_at(s, k),
        Lang::Python => py_end_at(s, p, kind),
    };
    let e1 = if e <= p {
        p + 1
    } else if e > s.len() {
        s.len()
    } else {
        e
    };
    trim_back_from(s, e1, p + 1)
}

fn find_text_in(t: &Vec<char>, w: &Vec<char>) -> (r: usize)
    ensures
        r == find_text(t@, w@, 0),
        r <= t.len(),
        r < t.len() ==> r + w.len() <= t.len(),
{
    let mut i: usize = 0;
    loop
        invariant
            i <= t.len(),
            find_text(t@, w@, i as int) == find_text(t@, w@, 0),
        decreases t.len() - i,
    {
        if i >= t.len() || w.len() > t.len() - i {
            return t.len();
        }
        if occurs_at(t, w, i) {
            return i;
        }
        i = i + 1;
    }
}

fn impl_name_at(s: &Vec<char>, i: usize) -> (r: Option<String>)
    ensures
        opt_view(r) == impl_name(s@, i as int),
{
    if i > s.len() {
        return None;
    }
    let i2 = if i < s.len() && s[i] == '<' {
        close_after(s, i, '<', '>')
    } else {
        i
    };
    let stops = vec!['{', ';', '\n'];
    assert(stops@ =~= seq!['{', ';', '\n']);
    let h = crate::text::find_any_from(s, i2, &stops);
    let head = trim_of(&slice(s, i2, h));
    let w = to_chars(" for ");
    let f = find_text_in(&head, &w);
    if f < head.len() {
        proof {
            reveal_strlit(" for ");
        }
        assert(w@.len() == 5);
        let mut r = string_of(&trim_of(&slice(&head, 0, f)));
        push_all(&mut r, &w);
        push_all(&mut r, &trim_of(&slice(&head, f + 5, head.len())));
        Some(r)
    } else if head.len() > 0 {
        Some(string_of(&head))
    } else {
        None
    }
}

/// The identifier after `n` characters from `k` and any white space.
fn name_after(s: &Vec<char>, k: usize, n: usize) -> (r: Option<String>)
    requires
        k <= s.len(),
    ensures
        opt_view(r) == name_at(s@, skip_ws(s@, k + n)),
{
    if n > s.len() - k {
        None
    } else {
        name_from(s, skip_ws_from(s, k + n))
    }
}

fn def_name_at(s: &Vec<char>, t: usize) -> (r: Option<String>)
    requires
        t <= s.len(),
    ensures
        opt_view(r) == def_name(s@, t as int),
{
    if at_str(s, t, "def ") {
        name_after(s, t, 4)
    } else if at_str(s, t, "async def ") {
        name_after(s, t, 10)
    } else if at_str(s, t, "class ") {
        name_after(s, t, 6)
    } else {
        None
    }
}

fn decl_name_at(lang: Lang, s: &Vec<char>, p: usize, kind: SymbolKind, k: usize, len: usize) -> (r: Option<String>)
    requires
        p <= k <= s.len(),
        len <= 16,
    ensures
        opt_view(r) == decl_name(lang, s@, p as int, kind, k as int, len as int),
{
    match lang {
        Lang::Go => if kind == SymbolKind::FunctionDeclaration {
            name_after(s, k, len)
        } else if kind == SymbolKind::MethodDeclaration {
            let r = find_char_from(s, k, ')');
            if r < s.len() {
                name_after(s, r, 1)
            } else {
                None
            }
        } else {
            None
        },
        Lang::Rust => if kind == SymbolKind::ImplItem {
            if 4 <= s.len() - k {
                impl_name_at(s, k + 4)
            } else {
                None
            }
        } else {
            name_after(s, k, len)
        },
        Lang::Python => if kind == SymbolKind::DecoratedDefinition {
            let ls = after_last_from(s, p, '\n');
            def_name_at(s, skip_blank_from(s, py_def_line_at(s, ls)))
        } else {
            def_name_at(s, p)
        },
    }
}

fn is_comment_at(lang: Lang, t: &Vec<char>) -> (r: bool)
    ensures
        r == is_comment(lang, t@),
{
    match lang {
        Lang::Python => at_str(t, 0, "#"),
        _ => at_str(t, 0, "//") || at_str(t, 0, "/*") || at_str(t, 0, "*"),
    }
}

pub open spec fn texts_view(v: Seq<Vec<char>>) -> Seq<Seq<char>> {
    Seq::new(v.len(), |i: int| v[i]@)
}

fn comments_before_at(lang: Lang, s: &Vec<char>, ls: usize) -> (r: Vec<Vec<char>>)
    requires
        ls <= s.len(),
    ensures
        texts_view(r@) == comments_before(lang, s@, ls as int),
{
    let mut out: Vec<Vec<char>> = Vec::new();
    let mut cur = ls;
    loop
        invariant
            cur <= ls <= s.len(),
            comments_before(lang, s@, ls as int) == comments_before(lang, s@, cur as int)
                + texts_view(out@),
        decreases cur,
    {
        if cur == 0 {
            assert(comments_before(lang, s@, ls as int) =~= texts_view(out@));
            return out;
        }
        let pls = after_last_from(s, cur - 1, '\n');
        let t = trim_of(&slice(s, pls, cur - 1));
        if t.len() == 0 {
            cur = pls;
        } else if is_comment_at(lang, &t) {
            let ghost before = texts_view(out@);
            out.insert(0, t);
            assert(texts_view(out@) =~= seq![t@] + before);
            assert(comments_before(lang, s@, cur as int) == comments_before(lang, s@, pls as int).push(t@));
            assert(comments_before(lang, s@, pls as int).push(t@) + before =~= comments_before(
                lang,
                s@,
                pls as int,
            ) + (seq![t@] + before));
            cur = pls;
        } else {
            assert(comments_before(lang, s@, ls as int) =~= texts_view(out@));
            return out;
        }
    }
}

fn push_comments(out: &mut String, cs: &Vec<Vec<char>>)
    ensures
        final(out)@ == old(out)@ + comment_block(texts_view(cs@)),
{
    let ghost start = out@;
    let ghost all = texts_view(cs@);
    let mut i: usize = 0;
    while i < cs.len()
        invariant
            i <= cs.len(),
            all == texts_view(cs@),
            out@ == start + comment_block(all.subrange(0, i as int)),
        decreases cs.len() - i,
    {
        push_all(out, &cs[i]);
        push_char(out, '\n');
        assert(all.subrange(0, i + 1).drop_last() =~= all.subrange(0, i as int));
        assert(all[i as int] == cs@[i as int]@);
        i = i + 1;
    }
    assert(all.subrange(0, i as int) =~= all);
}

pub open spec fn opt_chunk_view(o: Option<Chunk>) -> Option<ChunkView> {
    match o {
        Some(c) => Some(c@),
        None => None,
    }
}

/// The chunk of the declaration that starts at `p`, whose line is `line`.
fn decl_chunk_at(lang: Lang, s: &Vec<char>, p: usize, line: usize) -> (r: Option<Chunk>)
    requires
        p < s.len(),
        line == newlines(s@, p as int),
        line <= p,
    ensures
        opt_chunk_view(r) == decl_at(lang, s@, p as int),
        match r {
            Some(c) => 1 <= c.start_line <= c.end_line <= line_count(s@),
            None => true,
        },
{
    let (kind, k, len) = match decl_kind_at(lang, s, p) {
        None => {
            return None;
        },
        Some(d) => d,
    };
    if lang == Lang::Rust && kind == SymbolKind::FunctionItem && !rust_has_body_at(s, k) {
        return None;
    }
    let e = decl_end_at(lang, s, p, kind, k, len);
    let ghost cs = if first_on_line(s@, p as int) {
        comments_before(lang, s@, after_last(s@, p as int, '\n'))
    } else {
        Seq::empty()
    };
    let mut content = String::new();
    if first_on_line_at(s, p) {
        let cv = comments_before_at(lang, s, after_last_from(s, p, '\n'));
        push_comments(&mut content, &cv);
    } else {
        assert(comment_block(cs) =~= Seq::<char>::empty());
    }
    assert(content@ =~= comment_block(cs));
    push_all(&mut content, &slice(s, p, e));
    let name = decl_name_at(lang, s, p, kind, k, len);
    let mut ln = line;
    let mut j = p;
    while j < e - 1
        invariant
            p <= j <= e - 1,
            e <= s.len(),
            ln == newlines(s@, j as int),
            ln <= j,
        decreases e - 1 - j,
    {
        if s[j] == '\n' {
            ln = ln + 1;
        }
        j = j + 1;
    }
    proof {
        lemma_newlines_mono(s@, p as int, e - 1);
        lemma_line_in_range(s@, e - 1);
    }
    Some(
        Chunk {
            content,
            symbol_name: name,
            symbol_kind: kind,
            start_line: line + 1,
            end_line: ln + 1,
        },
    )
}

/// The chunks of source text `s` in language `lang`.
fn chunk_source(lang: Lang, s: &Vec<char>) -> (r: Vec<Chunk>)
    ensures
        view_chunks(r@) == source_chunks(lang, s@),
        forall|k: int|
            0 <= k < r.len() ==> 1 <= #[trigger] r@[k].start_line <= r@[k].end_line <= line_count(
                s@,
            ),
{
    let mut out: Vec<Chunk> = Vec::new();
    let mut p: usize = 0;
    let mut line: usize = 0;
    let mut st = LexState::Code;
    while p < s.len()
        invariant
            p <= s.len(),
            st == state_at(lang, s@, p as int),
            line == newlines(s@, p as int),
            line <= p,
            view_chunks(out@) + chunks_from(lang, s@, p as int) == chunks_from(lang, s@, 0),
            forall|k: int|
                0 <= k < out.len() ==> 1 <= #[trigger] out@[k].start_line <= out@[k].end_line
                    <= line_count(s@),
        decreases s.len() - p,
    {
        let ghost before = view_chunks(out@);
        let ghost rest = chunks_from(lang, s@, p + 1);
        let found = if st == LexState::Code {
            decl_chunk_at(lang, s, p, line)
        } else {
            None
        };
        match found {
            Some(c) => {
                let ghost old_out = out@;
                let ghost cc = c;
                out.push(c);
                assert(view_chunks(out@) =~= before.push(cc@));
                assert(before.push(cc@) + rest =~= before + (seq![cc@] + rest));
                assert forall|k: int| 0 <= k < out.len() implies 1 <= #[trigger] out@[k].start_line
                    <= out@[k].end_line <= line_count(s@) by {
                    if k < old_out.len() {
                        assert(out@[k] == old_out[k]);
                    } else {
                        assert(out@[k] == cc);
                    }
                }
            },
            None => {},
        }
        if s[p] == '\n' {
            line = line + 1;
        }
        st = next_state_at(lang, st, s, p);
        p = p + 1;
    }
    assert(chunks_from(lang, s@, p as int) =~= Seq::<ChunkView>::empty());
    assert(view_chunks(out@) + Seq::<ChunkView>::empty() =~= view_chunks(out@));
    out
}

/// The chunks of a source file in `language`, one of the built-in
/// languages `go`, `rust` and `python`: one per declaration of the kinds
/// its grammar cuts at, parents before nested ones. Fails for any other
/// name.
pub fn chunk_file(source: &str, language: &str) -> (r: Result<Vec<Chunk>, ChunkError>)
    ensures
        match r {
            Ok(v) => {
                &&& lang_of(language@) is Some
                &&& view_chunks(v@) == source_chunks(lang_of(language@)->0, source@)
                &&& forall|k: int|
                    0 <= k < v.len() ==> 1 <= #[trigger] v@[k].start_line <= v@[k].end_line
                        <= line_count(source@)
            },
            Err(ChunkError::NoGrammar(n)) => lang_of(language@) is None && n@ == language@,
        },
{
    match lang_named(language) {
        Some(lang) => Ok(chunk_source(lang, &to_chars(source))),
        None => Err(ChunkError::NoGrammar(language.to_owned())),
    }
}

/// Chunks whose kind is one of `kinds`.
pub open spec fn kind_in(kinds: Seq<Seq<char>>) -> spec_fn(ChunkView) -> bool {
    |c: ChunkView| kinds.contains(kind_label(c.symbol_kind))
}

fn kind_listed(k: SymbolKind, kinds: &Vec<String>) -> (r: bool)
    ensures
        r == strings_view(kinds@).contains(kind_label(k)),
{
    let label = k.to_string();
    let mut i: usize = 0;
    while i < kinds.len()
        invariant
            i <= kinds.len(),
            label@ == kind_label(k),
            forall|m: int| 0 <= m < i ==> strings_view(kinds@)[m] != kind_label(k),
        decreases kinds.len() - i,
    {
        if str_eq(kinds[i].as_str(), label.as_str()) {
            assert(strings_view(kinds@)[i as int] == kind_label(k));
            return true;
        }
        i = i + 1;
    }
    false
}

/// The chunks of a source file parsed with the grammar of id `grammar`
/// (as a language's configuration names it) whose node kind is among
/// `chunk_on`. Fails for a grammar that is not built in.
pub fn chunk_file_with(source: &str, grammar: &str, chunk_on: &Vec<String>) -> (r: Result<
    Vec<Chunk>,
    ChunkError,
>)
    ensures
        match r {
            Ok(v) => {
                &&& grammar_lang(grammar@) is Some
                &&& view_chunks(v@) == source_chunks(grammar_lang(grammar@)->0, source@).filter(
                    kind_in(strings_view(chunk_on@)),
                )
                &&& forall|k: int|
                    0 <= k < v.len() ==> 1 <= #[trigger] v@[k].start_line <= v@[k].end_line
                        <= line_count(source@)
            },
            Err(ChunkError::NoGrammar(n)) => grammar_lang(grammar@) is None && n@ == grammar@,
        },
{
    let mut all = match grammar_named(grammar) {
        Some(lang) => chunk_source(lang, &to_chars(source)),
        None => {
            return Err(ChunkError::NoGrammar(grammar.to_owned()));
        },
    };
    let ghost orig = view_chunks(all@);
    let ghost pred = kind_in(strings_view(chunk_on@));
    let ghost n = all@.len();
    assert(n == all.len());
    let mut out: Vec<Chunk> = Vec::new();
    let mut i: usize = 0;
    while all.len() > 0
        invariant
            i <= n,
            n <= usize::MAX,
            all@.len() == n - i,
            n == orig.len(),
            pred == kind_in(strings_view(chunk_on@)),
            view_chunks(all@) == orig.subrange(i as int, n as int),
            view_chunks(out@) == orig.subrange(0, i as int).filter(pred),
            forall|k: int|
                0 <= k < out.len() ==> 1 <= #[trigger] out@[k].start_line <= out@[k].end_line
                    <= line_count(source@),
            forall|k: int|
                0 <= k < all.len() ==> 1 <= #[trigger] all@[k].start_line <= all@[k].end_line
                    <= line_count(source@),
        decreases all.len(),
    {
        let ghost before_all = all@;
        let c = all.remove(0);
        assert(c@ == orig[i as int]) by {
            assert(before_all[0] == c);
            assert(view_chunks(before_all)[0] == orig.subrange(i as int, n as int)[0]);
        }
        assert forall|k: int| 0 <= k < all@.len() implies view_chunks(all@)[k] == orig.subrange(
            i + 1,
            n as int,
        )[k] by {
            assert(all@[k] == before_all[k + 1]);
            assert(view_chunks(before_all)[k + 1] == orig.subrange(i as int, n as int)[k + 1]);
        }
        assert(view_chunks(all@) =~= orig.subrange(i + 1, n as int));
        assert forall|k: int| 0 <= k < all.len() implies 1 <= #[trigger] all@[k].start_line
            <= all@[k].end_line <= line_count(source@) by {
            assert(all@[k] == before_all[k + 1]);
        }
        assert(c == before_all[0]);
        assert(1 <= c.start_line <= c.end_line <= line_count(source@));
        let ghost pre = orig.subrange(0, i as int);
        assert(orig.subrange(0, i + 1) =~= pre.push(orig[i as int]));
        proof {
            pre.lemma_filter_push(orig[i as int], pred);
        }
        if kind_listed(c.symbol_kind, chunk_on) {
            let ghost b = view_chunks(out@);
            let ghost old_out = out@;
            let ghost cc = c;
            out.push(c);
            assert(view_chunks(out@) =~= b.push(orig[i as int]));
            assert forall|k: int| 0 <= k < out.len() implies 1 <= #[trigger] out@[k].start_line
                <= out@[k].end_line <= line_count(source@) by {
                if k < old_out.len() {
                    assert(out@[k] == old_out[k]);
                } else {
                    assert(out@[k] == cc);
                }
            }
        }
        i = i + 1;
    }
    assert(orig.subrange(0, n as int) =~= orig);
    Ok(out)
}


/// `p` without the `'/'` characters at its end.
pub open spec fn drop_trailing_slashes(p: Seq<char>) -> Seq<char> {
    p.subrange(0, back_char(p, p.len() as int, '/'))
}

/// The last component of a path.
pub open spec fn file_name(p: Seq<char>) -> Seq<char> {
    let t = drop_trailing_slashes(p);
    t.subrange(after_last(t, t.len() as int, '/'), t.len() as int)
}

/// The extension of a path: what follows the last `'.'` of its last
/// component, where that dot is not the component's first character.
pub open spec fn extension(p: Seq<char>) -> Option<Seq<char>> {
    let n = file_name(p);
    let a = after_last(n, n.len() as int, '.');
    if a >= 2 {
        Some(n.subrange(a, n.len() as int))
    } else {
        None
    }
}

fn extension_of(path: &Vec<char>) -> (r: Option<Vec<char>>)
    ensures
        match r {
            Some(e) => extension(path@) == Some(e@),
            None => extension(path@) is None,
        },
{
    let b = back_char_from(path, path.len(), '/');
    let t = slice(path, 0, b);
    let s = after_last_from(&t, t.len(), '/');
    let n = slice(&t, s, t.len());
    let a = after_last_from(&n, n.len(), '.');
    if a >= 2 {
        Some(slice(&n, a, n.len()))
    } else {
        None
    }
}

/// Whether a path names a Go source file: `Some("go")` when its extension
/// is `go`, `None` for every other extension, `rs` and `py` included (those
/// languages are found through the configuration's extensions).
pub fn detect_language(path: &str) -> (r: Option<&'static str>)
    ensures
        extension(path@) == Some("go"@) ==> r == Some("go"),
        extension(path@) != Some("go"@) ==> r is None,
{
    let p = to_chars(path);
    match extension_of(&p) {
        Some(e) => {
            if same_chars(&e, &to_chars("go")) {
                Some("go")
            } else {
                None
            }
        },
        None => None,
    }
}

} // verus!
