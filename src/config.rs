//! The language registry: which file extensions belong to which language,
//! the grammar of each, and the node kinds it cuts chunks at.

use vstd::prelude::*;
use crate::text::{lemma_lt_total, less_than, same_chars, str_eq, text_lt, to_chars};

verus! {

/// Per-language configuration.
#[derive(Debug, Clone)]
pub struct LangConfig {
    /// File extensions that map to this language (e.g. `["rs"]`).
    pub extensions: Vec<String>,
    /// Name of the grammar (e.g. `"tree-sitter-rust"`).
    pub grammar: String,
    /// Node kinds to extract as chunks; when absent, the built-in defaults
    /// of a known language apply.
    pub chunk_on: Option<Vec<String>>,
}

pub struct LangConfigView {
    pub extensions: Seq<Seq<char>>,
    pub grammar: Seq<char>,
    pub chunk_on: Option<Seq<Seq<char>>>,
}

pub open spec fn strings_view(v: Seq<String>) -> Seq<Seq<char>> {
    Seq::new(v.len(), |i: int| v[i]@)
}

impl View for LangConfig {
    type V = LangConfigView;

    open spec fn view(&self) -> LangConfigView {
        LangConfigView {
            extensions: strings_view(self.extensions@),
            grammar: self.grammar@,
            chunk_on: match self.chunk_on {
                Some(v) => Some(strings_view(v@)),
                None => None,
            },
        }
    }
}

/// The languages by name: names are unique and kept in ascending order.
#[derive(Debug, Clone)]
pub struct LangTable {
    entries: Vec<(String, LangConfig)>,
}

pub open spec fn recs_of(v: Seq<(String, LangConfig)>) -> Seq<(Seq<char>, LangConfigView)> {
    Seq::new(v.len(), |i: int| (v[i].0@, v[i].1@))
}

impl View for LangTable {
    type V = Seq<(Seq<char>, LangConfigView)>;

    closed spec fn view(&self) -> Seq<(Seq<char>, LangConfigView)> {
        recs_of(self.entries@)
    }
}

/// No two entries share a name.
pub open spec fn distinct_names(t: Seq<(Seq<char>, LangConfigView)>) -> bool {
    forall|i: int, j: int| 0 <= i < j < t.len() ==> #[trigger] t[i].0 != #[trigger] t[j].0
}

/// Names in strictly ascending order, and unique.
pub open spec fn sorted_names(t: Seq<(Seq<char>, LangConfigView)>) -> bool {
    &&& forall|i: int| 0 <= i < t.len() - 1 ==> text_lt(#[trigger] t[i].0, t[i + 1].0)
    &&& distinct_names(t)
}

/// The configuration of language `n` in `t`.
pub open spec fn config_of(t: Seq<(Seq<char>, LangConfigView)>, n: Seq<char>) -> LangConfigView {
    t[choose|i: int| 0 <= i < t.len() && #[trigger] t[i].0 == n].1
}

/// With unique names, the configuration of a name is that of its entry.
pub proof fn lemma_config_at(t: Seq<(Seq<char>, LangConfigView)>, c: int)
    requires
        distinct_names(t),
        0 <= c < t.len(),
    ensures
        config_of(t, t[c].0) == t[c].1,
{
    let n = t[c].0;
    let c2 = choose|i: int| 0 <= i < t.len() && #[trigger] t[i].0 == n;
    if c2 != c {
        if c2 < c {
            assert(t[c2].0 != t[c].0);
        } else {
            assert(t[c].0 != t[c2].0);
        }
    }
}

/// Whether some entry of `t` is named `name`.
pub open spec fn has_name(t: Seq<(Seq<char>, LangConfigView)>, name: Seq<char>) -> bool {
    exists|i: int| 0 <= i < t.len() && #[trigger] t[i].0 == name
}

impl LangTable {
    pub closed spec fn wf(&self) -> bool {
        sorted_names(self@)
    }

    pub fn new() -> (r: LangTable)
        ensures
            r@.len() == 0,
            r.wf(),
    {
        LangTable { entries: Vec::new() }
    }

    pub fn len(&self) -> (r: usize)
        ensures
            r == self@.len(),
    {
        self.entries.len()
    }

    /// Index of the entry named `name`.
    fn position(&self, name: &Vec<char>) -> (r: Option<usize>)
        requires
            self.wf(),
        ensures
            match r {
                Some(i) => i < self@.len() && self@[i as int].0 == name@,
                None => !has_name(self@, name@),
            },
    {
        let mut i: usize = 0;
        while i < self.entries.len()
            invariant
                i <= self.entries.len(),
                forall|k: int| 0 <= k < i ==> #[trigger] self@[k].0 != name@,
            decreases self.entries.len() - i,
        {
            if same_chars(&to_chars(self.entries[i].0.as_str()), name) {
                return Some(i);
            }
            i = i + 1;
        }
        None
    }

    pub fn contains_key(&self, name: &str) -> (r: bool)
        requires
            self.wf(),
        ensures
            r == has_name(self@, name@),
    {
        self.position(&to_chars(name)).is_some()
    }

    /// The configuration of language `name`.
    pub fn get(&self, name: &str) -> (r: Option<&LangConfig>)
        requires
            self.wf(),
        ensures
            match r {
                Some(c) => has_name(self@, name@) && c@ == config_of(self@, name@),
                None => !has_name(self@, name@),
            },
    {
        match self.position(&to_chars(name)) {
            Some(i) => {
                assert(self@[i as int].1 == self.entries@[i as int].1@);
                proof {
                    lemma_config_at(self@, i as int);
                }
                Some(&self.entries[i].1)
            },
            None => None,
        }
    }

    /// The name and configuration at position `i`, in ascending name order.
    pub fn entry(&self, i: usize) -> (r: (&str, &LangConfig))
        requires
            i < self@.len(),
        ensures
            r.0@ == self@[i as int].0,
            r.1@ == self@[i as int].1,
    {
        (self.entries[i].0.as_str(), &self.entries[i].1)
    }

    /// Sets the configuration of language `name`, replacing the one it had.
    #[verifier::rlimit(60)]
    #[verifier::spinoff_prover]
    pub fn insert(&mut self, name: String, cfg: LangConfig)
        requires
            old(self).wf(),
        ensures
            final(self).wf(),
            has_name(final(self)@, name@),
            forall|n: Seq<char>|
                n != name@ ==> #[trigger] has_name(final(self)@, n) == has_name(old(self)@, n),
            config_of(final(self)@, name@) == cfg@,
            forall|n: Seq<char>|
                n != name@ && has_name(old(self)@, n) ==> #[trigger] config_of(final(self)@, n)
                    == config_of(old(self)@, n),
            has_name(old(self)@, name@) ==> exists|i: int|
                0 <= i < old(self)@.len() && #[trigger] old(self)@[i].0 == name@
                    && final(self)@ == old(self)@.update(i, (name@, cfg@)),
            !has_name(old(self)@, name@) ==> exists|p: int|
                0 <= p <= old(self)@.len() && final(self)@ == #[trigger] old(self)@.insert(
                    p,
                    (name@, cfg@),
                ),
    {
        let key = to_chars(name.as_str());
        let ghost old_view = self@;
        match self.position(&key) {
            Some(i) => {
                let ghost x = (key@, cfg@);
                self.entries.set(i, (name, cfg));
                assert(self@ =~= old_view.update(i as int, x));
                proof {
                    lemma_sorted_replace(old_view, i as int, x);
                    lemma_names_after_replace(old_view, i as int, x);
                    lemma_configs_after_update(old_view, self@, i as int, x);
                }
            },
            None => {
                let mut p: usize = 0;
                while p < self.entries.len() && less_than(
                    &to_chars(self.entries[p].0.as_str()),
                    &key,
                )
                    invariant
                        p <= self.entries.len(),
                        self@ == old_view,
                        forall|k: int| 0 <= k < p ==> text_lt(#[trigger] old_view[k].0, key@),
                    decreases self.entries.len() - p,
                {
                    p = p + 1;
                }
                let ghost x = (key@, cfg@);
                self.entries.insert(p, (name, cfg));
                assert(self@ =~= old_view.insert(p as int, x));
                proof {
                    if p < old_view.len() {
                        assert(!text_lt(old_view[p as int].0, key@));
                        assert(old_view[p as int].0 != key@);
                        lemma_lt_total(old_view[p as int].0, key@, 0);
                    }
                    lemma_sorted_insert(old_view, p as int, x);
                    lemma_names_after_insert(old_view, p as int, x);
                    lemma_configs_after_insert(old_view, self@, p as int, x);
                }
            },
        }
    }
}


#[verifier::rlimit(40)]
#[verifier::spinoff_prover]
proof fn lemma_sorted_insert(
    t: Seq<(Seq<char>, LangConfigView)>,
    p: int,
    x: (Seq<char>, LangConfigView),
)
    requires
        sorted_names(t),
        0 <= p <= t.len(),
        !has_name(t, x.0),
        forall|k: int| 0 <= k < p ==> text_lt(#[trigger] t[k].0, x.0),
        p < t.len() ==> text_lt(x.0, t[p].0),
    ensures
        sorted_names(t.insert(p, x)),
{
    let u = t.insert(p, x);
    assert forall|i: int| 0 <= i < u.len() - 1 implies text_lt(#[trigger] u[i].0, u[i + 1].0) by {
        if i < p - 1 {
            assert(u[i] == t[i] && u[i + 1] == t[i + 1]);
        } else if i == p - 1 {
            assert(u[i] == t[i]);
        } else if i == p {
            assert(u[i + 1] == t[i]);
        } else {
            assert(u[i] == t[i - 1] && u[i + 1] == t[i]);
        }
    }
    assert forall|i: int, j: int| 0 <= i < j < u.len() implies #[trigger] u[i].0 != #[trigger] u[j].0 by {
        if i != p && j != p {
            let oi = if i < p { i } else { i - 1 };
            let oj = if j < p { j } else { j - 1 };
            assert(u[i] == t[oi] && u[j] == t[oj]);
        } else if i == p {
            assert(u[j] == t[j - 1]);
        } else {
            assert(u[i] == t[i]);
        }
    }
}

/// `s` holds the languages of `base` overridden by those of `over`.
pub open spec fn merged(
    base: Seq<(Seq<char>, LangConfigView)>,
    over: Seq<(Seq<char>, LangConfigView)>,
    s: Seq<(Seq<char>, LangConfigView)>,
) -> bool {
    &&& forall|n: Seq<char>| #[trigger] has_name(s, n) <==> (has_name(base, n) || has_name(over, n))
    &&& forall|n: Seq<char>| has_name(over, n) ==> #[trigger] config_of(s, n) == config_of(over, n)
    &&& forall|n: Seq<char>|
        !has_name(over, n) && has_name(base, n) ==> #[trigger] config_of(s, n) == config_of(base, n)
}

/// Setting entry `k` of `uv` extends a merge of the entries after `k` to a
/// merge of those from `k` on.
proof fn lemma_merge_step(
    ov: Seq<(Seq<char>, LangConfigView)>,
    uv: Seq<(Seq<char>, LangConfigView)>,
    k: int,
    s0: Seq<(Seq<char>, LangConfigView)>,
    s1: Seq<(Seq<char>, LangConfigView)>,
)
    requires
        distinct_names(uv),
        0 <= k < uv.len(),
        merged(ov, uv.subrange(k + 1, uv.len() as int), s0),
        has_name(s1, uv[k].0),
        forall|n: Seq<char>| n != uv[k].0 ==> #[trigger] has_name(s1, n) == has_name(s0, n),
        config_of(s1, uv[k].0) == uv[k].1,
        forall|n: Seq<char>|
            n != uv[k].0 && has_name(s0, n) ==> #[trigger] config_of(s1, n) == config_of(s0, n),
    ensures
        merged(ov, uv.subrange(k, uv.len() as int), s1),
{
    let done = uv.subrange(k + 1, uv.len() as int);
    let now = uv.subrange(k, uv.len() as int);
    let x = uv[k];
    assert(distinct_names(now)) by {
        assert forall|i: int, j: int| 0 <= i < j < now.len() implies #[trigger] now[i].0
            != #[trigger] now[j].0 by {
            assert(now[i] == uv[k + i] && now[j] == uv[k + j]);
        }
    }
    assert(distinct_names(done)) by {
        assert forall|i: int, j: int| 0 <= i < j < done.len() implies #[trigger] done[i].0
            != #[trigger] done[j].0 by {
            assert(done[i] == uv[k + 1 + i] && done[j] == uv[k + 1 + j]);
        }
    }
    assert forall|n: Seq<char>| #[trigger] has_name(now, n) <==> (n == x.0 || has_name(done, n)) by {
        if has_name(now, n) {
            let j = choose|j: int| 0 <= j < now.len() && #[trigger] now[j].0 == n;
            if j > 0 {
                assert(done[j - 1].0 == n);
            }
        }
        if has_name(done, n) {
            let j = choose|j: int| 0 <= j < done.len() && #[trigger] done[j].0 == n;
            assert(now[j + 1].0 == n);
        }
        if n == x.0 {
            assert(now[0].0 == n);
        }
    }
    assert(now[0] == x);
    lemma_config_at(now, 0);
    assert forall|n: Seq<char>| has_name(now, n) implies #[trigger] config_of(s1, n) == config_of(
        now,
        n,
    ) by {
        if n != x.0 {
            let c = choose|c: int| 0 <= c < done.len() && #[trigger] done[c].0 == n;
            assert(now[c + 1] == done[c]);
            lemma_config_at(now, c + 1);
            lemma_config_at(done, c);
        }
    }
    assert forall|n: Seq<char>| !has_name(now, n) && has_name(ov, n) implies #[trigger] config_of(
        s1,
        n,
    ) == config_of(ov, n) by {
        assert(n != x.0);
        assert(!has_name(done, n));
    }
}

/// After an entry is replaced, its name has the new configuration and every
/// other name keeps its own.
proof fn lemma_configs_after_update(
    t: Seq<(Seq<char>, LangConfigView)>,
    u: Seq<(Seq<char>, LangConfigView)>,
    i: int,
    x: (Seq<char>, LangConfigView),
)
    requires
        distinct_names(t),
        distinct_names(u),
        0 <= i < t.len(),
        t[i].0 == x.0,
        u == t.update(i, x),
    ensures
        config_of(u, x.0) == x.1,
        forall|n: Seq<char>|
            n != x.0 && has_name(t, n) ==> #[trigger] config_of(u, n) == config_of(t, n),
{
    lemma_config_at(u, i);
    assert forall|n: Seq<char>| n != x.0 && has_name(t, n) implies #[trigger] config_of(u, n)
        == config_of(t, n) by {
        let c = choose|c: int| 0 <= c < t.len() && #[trigger] t[c].0 == n;
        assert(u[c] == t[c]);
        lemma_config_at(u, c);
        lemma_config_at(t, c);
    }
}

/// After an entry is inserted, its name has its configuration and every
/// other name keeps its own.
proof fn lemma_configs_after_insert(
    t: Seq<(Seq<char>, LangConfigView)>,
    u: Seq<(Seq<char>, LangConfigView)>,
    p: int,
    x: (Seq<char>, LangConfigView),
)
    requires
        distinct_names(t),
        distinct_names(u),
        0 <= p <= t.len(),
        u == t.insert(p, x),
    ensures
        config_of(u, x.0) == x.1,
        forall|n: Seq<char>|
            n != x.0 && has_name(t, n) ==> #[trigger] config_of(u, n) == config_of(t, n),
{
    assert(u[p] == x);
    lemma_config_at(u, p);
    assert forall|n: Seq<char>| n != x.0 && has_name(t, n) implies #[trigger] config_of(u, n)
        == config_of(t, n) by {
        let c = choose|c: int| 0 <= c < t.len() && #[trigger] t[c].0 == n;
        lemma_config_at(t, c);
        if c < p {
            assert(u[c] == t[c]);
            lemma_config_at(u, c);
        } else {
            assert(u[c + 1] == t[c]);
            lemma_config_at(u, c + 1);
        }
    }
}

/// Replacing an entry by one of the same name keeps the set of names.
proof fn lemma_names_after_replace(
    t: Seq<(Seq<char>, LangConfigView)>,
    i: int,
    x: (Seq<char>, LangConfigView),
)
    requires
        0 <= i < t.len(),
        t[i].0 == x.0,
    ensures
        has_name(t.update(i, x), x.0),
        forall|n: Seq<char>| #[trigger] has_name(t.update(i, x), n) == has_name(t, n),
{
    let u = t.update(i, x);
    assert(u[i].0 == x.0);
    assert forall|n: Seq<char>| #[trigger] has_name(u, n) == has_name(t, n) by {
        if has_name(t, n) {
            let k = choose|k: int| 0 <= k < t.len() && #[trigger] t[k].0 == n;
            assert(u[k].0 == n);
        }
        if has_name(u, n) {
            let k = choose|k: int| 0 <= k < u.len() && #[trigger] u[k].0 == n;
            assert(t[k].0 == n);
        }
    }
}

/// Inserting an entry adds its name and keeps every other name.
proof fn lemma_names_after_insert(
    t: Seq<(Seq<char>, LangConfigView)>,
    p: int,
    x: (Seq<char>, LangConfigView),
)
    requires
        0 <= p <= t.len(),
    ensures
        has_name(t.insert(p, x), x.0),
        forall|n: Seq<char>|
            n != x.0 ==> #[trigger] has_name(t.insert(p, x), n) == has_name(t, n),
{
    let u = t.insert(p, x);
    assert(u[p].0 == x.0);
    assert forall|n: Seq<char>| n != x.0 implies #[trigger] has_name(u, n) == has_name(t, n) by {
        if has_name(t, n) {
            let k = choose|k: int| 0 <= k < t.len() && #[trigger] t[k].0 == n;
            if k < p {
                assert(u[k].0 == n);
            } else {
                assert(u[k + 1].0 == n);
            }
        }
        if has_name(u, n) {
            let k = choose|k: int| 0 <= k < u.len() && #[trigger] u[k].0 == n;
            if k < p {
                assert(t[k].0 == n);
            } else {
                assert(k != p);
                assert(t[k - 1].0 == n);
            }
        }
    }
}

/// Replacing the entry at `i` by one of the same name keeps the order.
proof fn lemma_sorted_replace(t: Seq<(Seq<char>, LangConfigView)>, i: int, x: (Seq<char>, LangConfigView))
    requires
        sorted_names(t),
        0 <= i < t.len(),
        t[i].0 == x.0,
    ensures
        sorted_names(t.update(i, x)),
{
    let u = t.update(i, x);
    assert forall|k: int| 0 <= k < u.len() - 1 implies text_lt(#[trigger] u[k].0, u[k + 1].0) by {
        assert(u[k].0 == t[k].0 && u[k + 1].0 == t[k + 1].0);
    }
    assert forall|a: int, b: int| 0 <= a < b < u.len() implies #[trigger] u[a].0 != #[trigger] u[b].0 by {
        assert(u[a].0 == t[a].0 && u[b].0 == t[b].0);
    }
}


/// Top-level configuration.
#[derive(Debug, Clone)]
pub struct Config {
    pub lang: LangTable,
}

/// Why a configuration cannot be used.
#[derive(Debug, Clone, PartialEq, Eq)]
pub enum ConfigError {
    /// The language has no `chunk_on` and no built-in defaults.
    MissingChunkOn(String),
    /// The language names a grammar that is not built in.
    UnknownGrammar(String),
}

/// The built-in node kinds to cut chunks at, for a language name.
pub open spec fn default_kinds(language: Seq<char>) -> Seq<Seq<char>> {
    if language == "go"@ {
        seq![
            "function_declaration"@,
            "method_declaration"@,
            "type_declaration"@,
            "const_declaration"@,
            "var_declaration"@,
        ]
    } else if language == "rust"@ {
        seq![
            "function_item"@,
            "impl_item"@,
            "struct_item"@,
            "enum_item"@,
            "trait_item"@,
            "mod_item"@,
            "const_item"@,
            "type_item"@,
            "static_item"@,
            "macro_definition"@,
        ]
    } else if language == "python"@ {
        seq!["function_definition"@, "class_definition"@, "decorated_definition"@]
    } else {
        Seq::empty()
    }
}

/// The grammars that are built in.
pub open spec fn known_grammar(g: Seq<char>) -> bool {
    g == "tree-sitter-go"@ || g == "tree-sitter-rust"@ || g == "tree-sitter-python"@
}

pub open spec fn default_lang(ext: Seq<char>, grammar: Seq<char>) -> LangConfigView {
    LangConfigView { extensions: seq![ext], grammar, chunk_on: None }
}

/// The built-in languages, in name order.
pub open spec fn default_table() -> Seq<(Seq<char>, LangConfigView)> {
    seq![
        ("go"@, default_lang("go"@, "tree-sitter-go"@)),
        ("python"@, default_lang("py"@, "tree-sitter-python"@)),
        ("rust"@, default_lang("rs"@, "tree-sitter-rust"@)),
    ]
}

/// A language whose configuration is usable once resolved.
pub open spec fn resolvable(e: (Seq<char>, LangConfigView)) -> bool {
    (e.1.chunk_on is Some || default_kinds(e.0).len() > 0) && known_grammar(e.1.grammar)
}

/// What error an unusable language gives: a missing `chunk_on` first, then
/// an unknown grammar.
pub open spec fn fails_with(e: (Seq<char>, LangConfigView), err: ConfigError) -> bool {
    match err {
        ConfigError::MissingChunkOn(n) => n@ == e.0 && e.1.chunk_on is None && default_kinds(
            e.0,
        ).len() == 0,
        ConfigError::UnknownGrammar(n) => n@ == e.0 && !(e.1.chunk_on is None && default_kinds(
            e.0,
        ).len() == 0) && !known_grammar(e.1.grammar),
    }
}

/// The configuration with `chunk_on` filled in from the defaults when absent.
pub open spec fn resolved(e: (Seq<char>, LangConfigView)) -> (Seq<char>, LangConfigView) {
    if e.1.chunk_on is Some {
        e
    } else {
        (e.0, LangConfigView { chunk_on: Some(default_kinds(e.0)), ..e.1 })
    }
}

fn strings_of(v: Vec<&str>) -> (r: Vec<String>)
    ensures
        strings_view(r@) == Seq::new(v@.len(), |i: int| v@[i]@),
{
    let mut r: Vec<String> = Vec::new();
    let mut i: usize = 0;
    while i < v.len()
        invariant
            i <= v.len(),
            r@.len() == i,
            forall|k: int| 0 <= k < i ==> #[trigger] r@[k]@ == v@[k]@,
        decreases v.len() - i,
    {
        let s = v[i].to_owned();
        r.push(s);
        i = i + 1;
    }
    assert(strings_view(r@) =~= Seq::new(v@.len(), |k: int| v@[k]@));
    r
}

/// Built-in default `chunk_on` node kinds for known languages; empty for
/// any other.
pub fn default_chunk_on(language: &str) -> (r: Vec<String>)
    ensures
        strings_view(r@) == default_kinds(language@),
{
    if str_eq(language, "go") {
        let v = vec![
            "function_declaration",
            "method_declaration",
            "type_declaration",
            "const_declaration",
            "var_declaration",
        ];
        let r = strings_of(v);
        assert(strings_view(r@) =~= default_kinds(language@));
        r
    } else if str_eq(language, "rust") {
        let v = vec![
            "function_item",
            "impl_item",
            "struct_item",
            "enum_item",
            "trait_item",
            "mod_item",
            "const_item",
            "type_item",
            "static_item",
            "macro_definition",
        ];
        let r = strings_of(v);
        assert(strings_view(r@) =~= default_kinds(language@));
        r
    } else if str_eq(language, "python") {
        let v = vec!["function_definition", "class_definition", "decorated_definition"];
        let r = strings_of(v);
        assert(strings_view(r@) =~= default_kinds(language@));
        r
    } else {
        let r: Vec<String> = Vec::new();
        assert(strings_view(r@) =~= default_kinds(language@));
        r
    }
}

fn builtin_lang(ext: &str, grammar: &str) -> (r: LangConfig)
    ensures
        r@ == default_lang(ext@, grammar@),
{
    let extensions = vec![ext.to_owned()];
    let r = LangConfig { extensions, grammar: grammar.to_owned(), chunk_on: None };
    assert(r@.extensions =~= seq![ext@]);
    r
}

fn is_known_grammar(g: &String) -> (r: bool)
    ensures
        r == known_grammar(g@),
{
    str_eq(g.as_str(), "tree-sitter-go") || str_eq(g.as_str(), "tree-sitter-rust") || str_eq(
        g.as_str(),
        "tree-sitter-python",
    )
}

fn has_extension(cfg: &LangConfig, ext: &Vec<char>) -> (r: bool)
    ensures
        r == cfg@.extensions.contains(ext@),
{
    let mut k: usize = 0;
    while k < cfg.extensions.len()
        invariant
            k <= cfg.extensions.len(),
            forall|m: int| 0 <= m < k ==> cfg@.extensions[m] != ext@,
        decreases cfg.extensions.len() - k,
    {
        if same_chars(&to_chars(cfg.extensions[k].as_str()), ext) {
            assert(cfg@.extensions[k as int] == ext@);
            return true;
        }
        k = k + 1;
    }
    false
}

impl Config {
    pub closed spec fn wf(&self) -> bool {
        self.lang.wf()
    }

    /// The built-in languages: Go, Python and Rust.
    pub fn default_config() -> (r: Config)
        ensures
            r.wf(),
            r.lang@ == default_table(),
    {
        let go = builtin_lang("go", "tree-sitter-go");
        let python = builtin_lang("py", "tree-sitter-python");
        let rust = builtin_lang("rs", "tree-sitter-rust");
        let entries = vec![
            ("go".to_owned(), go),
            ("python".to_owned(), python),
            ("rust".to_owned(), rust),
        ];
        let r = Config { lang: LangTable { entries } };
        proof {
            reveal_strlit("go");
            reveal_strlit("python");
            reveal_strlit("rust");
            assert(r.lang@ =~= default_table());
            assert(text_lt("go"@, "python"@));
            assert(text_lt("python"@, "rust"@));
            assert("go"@ != "rust"@) by {
                assert("go"@[0] != "rust"@[0]);
            }
            assert("go"@ != "python"@) by {
                assert("go"@[0] != "python"@[0]);
            }
            assert("python"@ != "rust"@) by {
                assert("python"@[0] != "rust"@[0]);
            }
        }
        r
    }

    /// The first language, in name order, that claims the file extension `ext`.
    pub fn language_for_extension(&self, ext: &str) -> (r: Option<(&str, &LangConfig)>)
        ensures
            match r {
                Some(p) => exists|i: int|
                    0 <= i < self.lang@.len() && #[trigger] self.lang@[i].0 == p.0@
                        && self.lang@[i].1 == p.1@ && p.1@.extensions.contains(ext@) && forall|
                        j: int,
                    |
                        0 <= j < i ==> !(#[trigger] self.lang@[j].1.extensions.contains(ext@)),
                None => forall|i: int|
                    0 <= i < self.lang@.len() ==> !(#[trigger] self.lang@[i].1.extensions.contains(
                        ext@,
                    )),
            },
    {
        let e = to_chars(ext);
        let mut i: usize = 0;
        while i < self.lang.len()
            invariant
                i <= self.lang@.len(),
                e@ == ext@,
                forall|j: int|
                    0 <= j < i ==> !(#[trigger] self.lang@[j].1.extensions.contains(ext@)),
            decreases self.lang@.len() - i,
        {
            let (name, cfg) = self.lang.entry(i);
            if has_extension(cfg, &e) {
                return Some((name, cfg));
            }
            i = i + 1;
        }
        None
    }

    /// Overrides the languages of `self` by those of `user`, language by
    /// language; the other languages stay.
    pub fn merge(&mut self, user: Config)
        requires
            old(self).wf(),
            user.wf(),
        ensures
            final(self).wf(),
            forall|n: Seq<char>|
                #[trigger] has_name(final(self).lang@, n) <==> (has_name(old(self).lang@, n)
                    || has_name(user.lang@, n)),
            forall|n: Seq<char>|
                has_name(user.lang@, n) ==> #[trigger] config_of(final(self).lang@, n)
                    == config_of(user.lang@, n),
            forall|n: Seq<char>|
                !has_name(user.lang@, n) && has_name(old(self).lang@, n) ==> #[trigger] config_of(
                    final(self).lang@,
                    n,
                ) == config_of(old(self).lang@, n),
    {
        let ghost uv = user.lang@;
        let ghost ov = self.lang@;
        let mut entries = user.lang.entries;
        assert(recs_of(entries@) == uv);
        assert(uv.subrange(uv.len() as int, uv.len() as int) =~= Seq::<(Seq<char>, LangConfigView)>::empty());
        while entries.len() > 0
            invariant
                self.wf(),
                distinct_names(uv),
                uv.len() >= entries@.len(),
                recs_of(entries@) == uv.subrange(0, entries@.len() as int),
                merged(ov, uv.subrange(entries@.len() as int, uv.len() as int), self.lang@),
            decreases entries.len(),
        {
            let ghost k = entries@.len() - 1;
            let ghost s0 = self.lang@;
            match entries.pop() {
                Some((name, cfg)) => {
                    assert(recs_of(entries@) =~= uv.subrange(0, k));
                    assert(uv[k] == (name@, cfg@)) by {
                        assert(uv.subrange(0, k + 1)[k] == uv[k]);
                    }
                    self.lang.insert(name, cfg);
                    proof {
                        lemma_merge_step(ov, uv, k, s0, self.lang@);
                    }
                },
                None => {},
            }
        }
        assert(uv.subrange(0, uv.len() as int) =~= uv);
    }

    /// Checks every language and fills in a missing `chunk_on` from the
    /// built-in defaults. Fails, changing nothing, on the first language (in
    /// name order) that has neither, or whose grammar is not built in.
    pub fn resolve(&mut self) -> (r: Result<(), ConfigError>)
        requires
            old(self).wf(),
        ensures
            final(self).wf(),
            r is Ok <==> forall|i: int|
                0 <= i < old(self).lang@.len() ==> resolvable(#[trigger] old(self).lang@[i]),
            r is Ok ==> final(self).lang@ == old(self).lang@.map_values(
                |e: (Seq<char>, LangConfigView)| resolved(e),
            ),
            match r {
                Ok(_) => true,
                Err(e) => *final(self) == *old(self) && exists|i: int|
                    0 <= i < old(self).lang@.len() && fails_with(#[trigger] old(self).lang@[i], e)
                        && forall|j: int|
                        0 <= j < i ==> resolvable(#[trigger] old(self).lang@[j]),
            },
    {
        let ghost old_view = self.lang@;
        let mut i: usize = 0;
        while i < self.lang.entries.len()
            invariant
                i <= self.lang@.len(),
                self.lang@ == old_view,
                *self == *old(self),
                self.wf(),
                forall|j: int| 0 <= j < i ==> resolvable(#[trigger] old_view[j]),
            decreases self.lang@.len() - i,
        {
            let name = &self.lang.entries[i].0;
            let cfg = &self.lang.entries[i].1;
            assert(old_view[i as int] == (name@, cfg@));
            let defaults_empty = default_chunk_on(name.as_str()).len() == 0;
            if cfg.chunk_on.is_none() && defaults_empty {
                return Err(ConfigError::MissingChunkOn(name.clone()));
            }
            if !is_known_grammar(&cfg.grammar) {
                return Err(ConfigError::UnknownGrammar(name.clone()));
            }
            i = i + 1;
        }
        let mut i: usize = 0;
        while i < self.lang.entries.len()
            invariant
                i <= self.lang@.len(),
                self.lang@.len() == old_view.len(),
                self.wf(),
                forall|j: int| 0 <= j < old_view.len() ==> resolvable(#[trigger] old_view[j]),
                forall|j: int| 0 <= j < i ==> #[trigger] self.lang@[j] == resolved(old_view[j]),
                forall|j: int| i <= j < old_view.len() ==> #[trigger] self.lang@[j] == old_view[j],
            decreases self.lang@.len() - i,
        {
            if self.lang.entries[i].1.chunk_on.is_none() {
                let ghost before = self.lang@;
                let ghost old_entries = self.lang.entries@;
                let (name, mut cfg) = self.lang.entries.remove(i);
                assert(old_entries[i as int] == (name, cfg));
                assert(before[i as int] == (name@, cfg@));
                assert(before[i as int] == old_view[i as int]);
                let ghost cfg0 = cfg@;
                cfg.chunk_on = Some(default_chunk_on(name.as_str()));
                assert(cfg@.extensions == cfg0.extensions && cfg@.grammar == cfg0.grammar);
                let ghost x = (name@, cfg@);
                self.lang.entries.insert(i, (name, cfg));
                assert(self.lang@ =~= before.update(i as int, x));
                proof {
                    lemma_sorted_replace(before, i as int, x);
                }
                assert(x == resolved(old_view[i as int]));
            } else {
                assert(self.lang@[i as int] == resolved(old_view[i as int]));
            }
            i = i + 1;
        }
        assert(self.lang@ =~= old_view.map_values(|e: (Seq<char>, LangConfigView)| resolved(e)));
        Ok(())
    }

    /// Names of all configured languages, in ascending order.
    pub fn language_names(&self) -> (r: Vec<&str>)
        requires
            self.wf(),
        ensures
            r@.len() == self.lang@.len(),
            forall|i: int| 0 <= i < r@.len() ==> #[trigger] r@[i]@ == self.lang@[i].0,
            forall|i: int| 0 <= i < r@.len() - 1 ==> text_lt(#[trigger] r@[i]@, r@[i + 1]@),
    {
        let mut r: Vec<&str> = Vec::new();
        let mut i: usize = 0;
        while i < self.lang.len()
            invariant
                i <= self.lang@.len(),
                r@.len() == i,
                forall|k: int| 0 <= k < i ==> #[trigger] r@[k]@ == self.lang@[k].0,
            decreases self.lang@.len() - i,
        {
            let (name, _) = self.lang.entry(i);
            r.push(name);
            i = i + 1;
        }
        assert forall|i: int| 0 <= i < r@.len() - 1 implies text_lt(#[trigger] r@[i]@, r@[i + 1]@) by {
            assert(r@[i]@ == self.lang@[i].0 && r@[i + 1]@ == self.lang@[i + 1].0);
        }
        r
    }
}

} // verus!
