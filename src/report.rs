//! Text that the tools hand back: result listings and the name of a
//! project's database directory.

use vstd::prelude::*;
use crate::chunker::opt_view;
use crate::text::{push_all, push_char, to_chars};

verus! {

pub open spec fn hex_table() -> Seq<char> {
    seq!['0', '1', '2', '3', '4', '5', '6', '7', '8', '9', 'a', 'b', 'c', 'd', 'e', 'f']
}

/// The last `n` hexadecimal digits of `h`, lowercase, most significant first.
pub open spec fn hex_digits(h: nat, n: nat) -> Seq<char>
    decreases n,
{
    if n == 0 {
        Seq::empty()
    } else {
        hex_digits(h / 16, (n - 1) as nat).push(hex_table()[(h % 16) as int])
    }
}

/// The decimal digits of `n`.
pub open spec fn decimal(n: nat) -> Seq<char>
    decreases n,
{
    if n < 10 {
        seq![hex_table()[n as int]]
    } else {
        decimal(n / 10).push(hex_table()[(n % 10) as int])
    }
}

/// `n` in decimal, with a `'-'` when negative.
pub open spec fn signed_decimal(n: int) -> Seq<char> {
    if n < 0 {
        seq!['-'] + decimal((-n) as nat)
    } else {
        decimal(n as nat)
    }
}

fn digit(d: u64) -> (r: char)
    requires
        d < 16,
    ensures
        r == hex_table()[d as int],
{
    let t = vec!['0', '1', '2', '3', '4', '5', '6', '7', '8', '9', 'a', 'b', 'c', 'd', 'e', 'f'];
    assert(t@ =~= hex_table());
    t[d as usize]
}

fn hex_of(h: u64, n: u64) -> (r: Vec<char>)
    ensures
        r@ == hex_digits(h as nat, n as nat),
    decreases n,
{
    if n == 0 {
        Vec::new()
    } else {
        let mut r = hex_of(h / 16, n - 1);
        r.push(digit(h % 16));
        r
    }
}

fn decimal_of(n: u64) -> (r: Vec<char>)
    ensures
        r@ == decimal(n as nat),
    decreases n,
{
    if n < 10 {
        let mut r = Vec::new();
        r.push(digit(n));
        assert(r@ =~= seq![hex_table()[n as int]]);
        r
    } else {
        let mut r = decimal_of(n / 10);
        r.push(digit(n % 10));
        r
    }
}

/// Appends `n` in decimal to `s`.
fn push_signed(s: &mut String, n: i64)
    ensures
        final(s)@ == old(s)@ + signed_decimal(n as int),
{
    if n < 0 {
        push_char(s, '-');
        let m: u64 = (-(n as i128)) as u64;
        push_all(s, &decimal_of(m));
    } else {
        push_all(s, &decimal_of(n as u64));
    }
}

/// The directory name of a project's database: the last component of its
/// root (`"root"` when it has none), a `'-'`, and eight hexadecimal digits
/// of the low 32 bits of the hash of the root path.
pub fn dir_name_for(name: Option<&str>, hash: u64) -> (r: String)
    ensures
        r@ == match name {
            Some(n) => n@,
            None => "root"@,
        } + seq!['-'] + hex_digits((hash % 0x1_0000_0000) as nat, 8),
{
    let mut r = match name {
        Some(n) => n.to_owned(),
        None => "root".to_owned(),
    };
    push_char(&mut r, '-');
    push_all(&mut r, &hex_of(hash % 0x1_0000_0000, 8));
    r
}

/// One result of a search, as the tools show it.
pub struct SearchHit {
    pub file_path: String,
    pub content: String,
    pub symbol_name: Option<String>,
    pub symbol_kind: Option<String>,
    pub start_line: i64,
    pub end_line: i64,
    /// The distance to the query, already written out.
    pub distance: String,
}

/// `" (kind name)"` when the hit has both, else nothing.
pub open spec fn symbol_info(h: SearchHit) -> Seq<char> {
    match (opt_view(h.symbol_kind), opt_view(h.symbol_name)) {
        (Some(k), Some(n)) => " ("@ + k + seq![' '] + n + seq![')'],
        _ => Seq::empty(),
    }
}

/// `"## path:start-end"`.
pub open spec fn section_head(h: SearchHit) -> Seq<char> {
    "## "@ + h.file_path@ + seq![':'] + signed_decimal(h.start_line as int) + seq!['-']
        + signed_decimal(h.end_line as int)
}

/// `" [distance]"` when distances are shown.
pub open spec fn distance_part(h: SearchHit, show_distance: bool) -> Seq<char> {
    if show_distance {
        " ["@ + h.distance@ + seq![']']
    } else {
        Seq::empty()
    }
}

/// The content in a fenced block, and a blank line.
pub open spec fn section_body(h: SearchHit) -> Seq<char> {
    "\n```\n"@ + h.content@ + "\n```\n\n"@
}

/// The section that shows one hit.
pub open spec fn section(h: SearchHit, show_distance: bool) -> Seq<char> {
    section_head(h) + symbol_info(h) + distance_part(h, show_distance) + section_body(h)
}

/// The sections of the first `n` hits, in order.
pub open spec fn sections(hs: Seq<SearchHit>, show_distance: bool, n: int) -> Seq<char>
    decreases n,
{
    if n <= 0 {
        Seq::empty()
    } else {
        sections(hs, show_distance, n - 1) + section(hs[n - 1], show_distance)
    }
}

fn push_text(s: &mut String, t: &str)
    ensures
        final(s)@ == old(s)@ + t@,
{
    push_all(s, &to_chars(t));
}

fn push_string(s: &mut String, t: &String)
    ensures
        final(s)@ == old(s)@ + t@,
{
    push_all(s, &to_chars(t.as_str()));
}

fn push_head(out: &mut String, h: &SearchHit)
    ensures
        final(out)@ == old(out)@ + section_head(*h),
{
    let ghost before = out@;
    push_text(out, "## ");
    push_string(out, &h.file_path);
    push_char(out, ':');
    push_signed(out, h.start_line);
    push_char(out, '-');
    push_signed(out, h.end_line);
    assert(out@ =~= before + section_head(*h));
}

fn push_info(out: &mut String, h: &SearchHit)
    ensures
        final(out)@ == old(out)@ + symbol_info(*h),
{
    let ghost before = out@;
    match (&h.symbol_kind, &h.symbol_name) {
        (Some(k), Some(n)) => {
            push_text(out, " (");
            push_string(out, k);
            push_char(out, ' ');
            push_string(out, n);
            push_char(out, ')');
        },
        _ => {},
    }
    assert(out@ =~= before + symbol_info(*h));
}

fn push_distance(out: &mut String, h: &SearchHit, show_distance: bool)
    ensures
        final(out)@ == old(out)@ + distance_part(*h, show_distance),
{
    let ghost before = out@;
    if show_distance {
        push_text(out, " [");
        push_string(out, &h.distance);
        push_char(out, ']');
    }
    assert(out@ =~= before + distance_part(*h, show_distance));
}

fn push_body(out: &mut String, h: &SearchHit)
    ensures
        final(out)@ == old(out)@ + section_body(*h),
{
    let ghost before = out@;
    push_text(out, "\n```\n");
    push_string(out, &h.content);
    push_text(out, "\n```\n\n");
    assert(out@ =~= before + section_body(*h));
}

fn push_section(out: &mut String, h: &SearchHit, show_distance: bool)
    ensures
        final(out)@ == old(out)@ + section(*h, show_distance),
{
    let ghost before = out@;
    push_head(out, h);
    push_info(out, h);
    push_distance(out, h, show_distance);
    push_body(out, h);
    assert(out@ =~= before + section(*h, show_distance));
}

/// The results as markdown sections, one per hit, with the distance in
/// brackets when `show_distance` holds.
pub fn format_results(results: &Vec<SearchHit>, show_distance: bool) -> (r: String)
    ensures
        r@ == sections(results@, show_distance, results@.len() as int),
{
    let mut out = String::new();
    let mut i: usize = 0;
    while i < results.len()
        invariant
            i <= results.len(),
            out@ == sections(results@, show_distance, i as int),
        decreases results.len() - i,
    {
        push_section(&mut out, &results[i], show_distance);
        i = i + 1;
    }
    out
}

} // verus!
