//! The metadata half of the vector store: every stored chunk but its vector,
//! under a record key that is never reused.

use vstd::prelude::*;
use crate::chunker::opt_view;
use crate::config::strings_view;
use crate::text::{
    contains_text, has_infix, lemma_lt_total, less_than, same_chars, str_eq, text_lt,
    to_chars,
};

verus! {

/// Everything stored of a chunk but its vector.
#[derive(Debug)]
pub struct ChunkMeta {
    pub file_path: String,
    pub chunk_id: i64,
    pub content: String,
    pub symbol_name: Option<String>,
    pub symbol_kind: Option<String>,
    pub language: String,
    pub start_line: i64,
    pub end_line: i64,
    pub last_modified: i64,
}

pub struct ChunkMetaView {
    pub file_path: Seq<char>,
    pub chunk_id: int,
    pub content: Seq<char>,
    pub symbol_name: Option<Seq<char>>,
    pub symbol_kind: Option<Seq<char>>,
    pub language: Seq<char>,
    pub start_line: int,
    pub end_line: int,
    pub last_modified: int,
}

impl View for ChunkMeta {
    type V = ChunkMetaView;

    open spec fn view(&self) -> ChunkMetaView {
        ChunkMetaView {
            file_path: self.file_path@,
            chunk_id: self.chunk_id as int,
            content: self.content@,
            symbol_name: opt_view(self.symbol_name),
            symbol_kind: opt_view(self.symbol_kind),
            language: self.language@,
            start_line: self.start_line as int,
            end_line: self.end_line as int,
            last_modified: self.last_modified as int,
        }
    }
}

fn clone_opt(o: &Option<String>) -> (r: Option<String>)
    ensures
        opt_view(r) == opt_view(*o),
{
    match o {
        Some(s) => Some(s.clone()),
        None => None,
    }
}

impl ChunkMeta {
    /// A copy with the same fields.
    pub fn duplicate(&self) -> (r: ChunkMeta)
        ensures
            r@ == self@,
    {
        ChunkMeta {
            file_path: self.file_path.clone(),
            chunk_id: self.chunk_id,
            content: self.content.clone(),
            symbol_name: clone_opt(&self.symbol_name),
            symbol_kind: clone_opt(&self.symbol_kind),
            language: self.language.clone(),
            start_line: self.start_line,
            end_line: self.end_line,
            last_modified: self.last_modified,
        }
    }
}

pub open spec fn metas_view(v: Seq<ChunkMeta>) -> Seq<ChunkMetaView> {
    Seq::new(v.len(), |i: int| v[i]@)
}

/// The metadata of the store: records in ascending key order, every key
/// below `next_key`.
pub struct Metadata {
    next_key: u64,
    records: Vec<(u64, ChunkMeta)>,
}

/// Keys strictly ascending and below `next`.
pub open spec fn keys_ordered(r: Seq<(u64, ChunkMetaView)>, next: nat) -> bool {
    &&& forall|i: int, j: int| 0 <= i < j < r.len() ==> (#[trigger] r[i]).0 < (#[trigger] r[j]).0
    &&& forall|i: int| 0 <= i < r.len() ==> (#[trigger] r[i]).0 < next
}

/// The keys of the records.
pub open spec fn key_set(r: Seq<(u64, ChunkMetaView)>) -> Set<u64> {
    r.map_values(|e: (u64, ChunkMetaView)| e.0).to_set()
}

pub open spec fn not_in_file(p: Seq<char>) -> spec_fn((u64, ChunkMetaView)) -> bool {
    |e: (u64, ChunkMetaView)| e.1.file_path != p
}

pub open spec fn in_file(p: Seq<char>) -> spec_fn((u64, ChunkMetaView)) -> bool {
    |e: (u64, ChunkMetaView)| e.1.file_path == p
}

pub open spec fn key_of() -> spec_fn((u64, ChunkMetaView)) -> u64 {
    |e: (u64, ChunkMetaView)| e.0
}

/// The records that do not belong to file `p`, in order.
pub open spec fn without_file(r: Seq<(u64, ChunkMetaView)>, p: Seq<char>) -> Seq<(u64, ChunkMetaView)> {
    r.filter(not_in_file(p))
}

/// The keys of the records of file `p`, in order.
pub open spec fn keys_of_file(r: Seq<(u64, ChunkMetaView)>, p: Seq<char>) -> Seq<u64> {
    r.filter(in_file(p)).map_values(key_of())
}

pub open spec fn recs_view(v: Seq<(u64, ChunkMeta)>) -> Seq<(u64, ChunkMetaView)> {
    Seq::new(v.len(), |i: int| (v[i].0, v[i].1@))
}

/// The records that `rows` become under consecutive keys from `first`.
pub open spec fn keyed(rows: Seq<ChunkMetaView>, first: nat) -> Seq<(u64, ChunkMetaView)> {
    Seq::new(rows.len(), |i: int| ((first + i) as u64, rows[i]))
}

impl View for Metadata {
    type V = (nat, Seq<(u64, ChunkMetaView)>);

    closed spec fn view(&self) -> (nat, Seq<(u64, ChunkMetaView)>) {
        (self.next_key as nat, recs_view(self.records@))
    }
}

impl Metadata {
    pub closed spec fn wf(&self) -> bool {
        keys_ordered(self@.1, self@.0)
    }

    /// An empty store.
    pub fn new() -> (r: Metadata)
        ensures
            r.wf(),
            r@.0 == 0,
            r@.1.len() == 0,
    {
        Metadata { next_key: 0, records: Vec::new() }
    }

    /// The key the next inserted record gets.
    pub fn next_key(&self) -> (r: u64)
        ensures
            r == self@.0,
    {
        self.next_key
    }

    /// Number of records stored.
    pub fn chunk_count(&self) -> (r: usize)
        ensures
            r == self@.1.len(),
    {
        self.records.len()
    }

    /// The parts to store: the next key and the records, in key order.
    pub fn snapshot(&self) -> (r: (u64, Vec<(u64, ChunkMeta)>))
        ensures
            r.0 == self@.0,
            recs_view(r.1@) == self@.1,
    {
        let mut out: Vec<(u64, ChunkMeta)> = Vec::new();
        let mut i: usize = 0;
        while i < self.records.len()
            invariant
                i <= self.records@.len(),
                recs_view(out@) == recs_view(self.records@).subrange(0, i as int),
            decreases self.records@.len() - i,
        {
            let ghost before = recs_view(out@);
            out.push((self.records[i].0, self.records[i].1.duplicate()));
            assert(recs_view(out@) =~= before.push(recs_view(self.records@)[i as int]));
            assert(recs_view(self.records@).subrange(0, i + 1) =~= recs_view(self.records@).subrange(
                0,
                i as int,
            ).push(recs_view(self.records@)[i as int]));
            i = i + 1;
        }
        assert(recs_view(self.records@).subrange(0, i as int) =~= recs_view(self.records@));
        (self.next_key, out)
    }

    /// Metadata restored from stored parts: `None` unless the keys ascend
    /// strictly and stay below `next_key`.
    pub fn restore(next_key: u64, records: Vec<(u64, ChunkMeta)>) -> (r: Option<Metadata>)
        ensures
            match r {
                Some(m) => m.wf() && m@.0 == next_key && m@.1 == recs_view(records@),
                None => !keys_ordered(recs_view(records@), next_key as nat),
            },
    {
        let ghost v = recs_view(records@);
        let mut i: usize = 0;
        while i < records.len()
            invariant
                i <= records.len(),
                v == recs_view(records@),
                forall|a: int, b: int| 0 <= a < b < i ==> (#[trigger] v[a]).0 < (#[trigger] v[b]).0,
                forall|a: int| 0 <= a < i ==> (#[trigger] v[a]).0 < next_key,
            decreases records.len() - i,
        {
            if records[i].0 >= next_key || (i > 0 && records[i - 1].0 >= records[i].0) {
                assert(v[i as int].0 == records@[i as int].0);
                if i > 0 {
                    assert(v[i - 1].0 == records@[i - 1].0);
                }
                return None;
            }
            assert(v[i as int].0 == records@[i as int].0);
            assert(i > 0 ==> v[i - 1].0 == records@[i - 1].0);
            i = i + 1;
        }
        let m = Metadata { next_key, records };
        assert(m@.1 == v);
        Some(m)
    }
}


impl Metadata {
    /// Stores `rows` under fresh consecutive keys, in order, and returns the
    /// keys. `None`, with nothing stored, when the keys would run out.
    pub fn insert(&mut self, rows: Vec<ChunkMeta>) -> (r: Option<Vec<u64>>)
        requires
            old(self).wf(),
        ensures
            final(self).wf(),
            match r {
                Some(keys) => {
                    &&& old(self)@.0 + rows@.len() <= u64::MAX
                    &&& keys@ == Seq::new(rows@.len(), |i: int| (old(self)@.0 + i) as u64)
                    &&& final(self)@.0 == old(self)@.0 + rows@.len()
                    &&& final(self)@.1 == old(self)@.1 + keyed(metas_view(rows@), old(self)@.0)
                },
                None => old(self)@.0 + rows@.len() > u64::MAX && *final(self) == *old(self),
            },
    {
        let n = rows.len();
        if n as u64 > u64::MAX - self.next_key {
            return None;
        }
        let ghost old_view = self@;
        let ghost orig = metas_view(rows@);
        let mut rows = rows;
        let mut keys: Vec<u64> = Vec::new();
        let mut i: usize = 0;
        while i < n
            invariant
                i <= n,
                n == orig.len(),
                old_view.0 + n <= u64::MAX,
                keys_ordered(old_view.1, old_view.0),
                metas_view(rows@) == orig.subrange(i as int, n as int),
                rows@.len() == n - i,
                self.next_key == old_view.0 + i,
                self@.1 == old_view.1 + keyed(orig.subrange(0, i as int), old_view.0),
                keys@ == Seq::new(i as nat, |k: int| (old_view.0 + k) as u64),
                keys_ordered(self@.1, self@.0),
            decreases n - i,
        {
            let ghost old_rows = rows@;
            let row = rows.remove(0);
            assert(row@ == orig[i as int]) by {
                assert(old_rows[0] == row);
                assert(metas_view(old_rows)[0] == orig.subrange(i as int, n as int)[0]);
            }
            assert forall|k: int| 0 <= k < rows@.len() implies metas_view(rows@)[k] == orig.subrange(
                i + 1,
                n as int,
            )[k] by {
                assert(rows@[k] == old_rows[k + 1]);
                assert(metas_view(old_rows)[k + 1] == orig.subrange(i as int, n as int)[k + 1]);
            }
            assert(metas_view(rows@) =~= orig.subrange(i + 1, n as int));
            let key = self.next_key;
            let ghost before = self@.1;
            self.records.push((key, row));
            keys.push(key);
            self.next_key = self.next_key + 1;
            i = i + 1;
            assert(keyed(orig.subrange(0, i as int), old_view.0) =~= keyed(
                orig.subrange(0, i - 1),
                old_view.0,
            ).push((key, orig[i - 1])));
            assert(self@.1 =~= before.push((key, row@)));
            assert(keys@ =~= Seq::new(i as nat, |k: int| (old_view.0 + k) as u64));
        }
        assert(orig.subrange(0, n as int) =~= orig);
        Some(keys)
    }

    /// Replaces the records of file `path` by `rows`, stored under fresh
    /// consecutive keys: one step of re-indexing. Returns the keys removed
    /// and the keys given, in order; `None`, with nothing changed, when the
    /// keys would run out.
    pub fn replace_file(&mut self, path: &str, rows: Vec<ChunkMeta>) -> (r: Option<(Vec<u64>, Vec<u64>)>)
        requires
            old(self).wf(),
        ensures
            final(self).wf(),
            match r {
                Some((removed, added)) => {
                    &&& old(self)@.0 + rows@.len() <= u64::MAX
                    &&& removed@ == keys_of_file(old(self)@.1, path@)
                    &&& added@ == Seq::new(rows@.len(), |i: int| (old(self)@.0 + i) as u64)
                    &&& final(self)@.0 == old(self)@.0 + rows@.len()
                    &&& final(self)@.1 == reindexed(old(self)@.1, old(self)@.0, path@, metas_view(rows@))
                },
                None => old(self)@.0 + rows@.len() > u64::MAX && *final(self) == *old(self),
            },
    {
        if rows.len() as u64 > u64::MAX - self.next_key {
            return None;
        }
        let removed = self.delete_file(path);
        match self.insert(rows) {
            Some(added) => Some((removed, added)),
            None => None,
        }
    }

    /// Removes every record of file `path`; returns their keys, in order.
    pub fn delete_file(&mut self, path: &str) -> (r: Vec<u64>)
        requires
            old(self).wf(),
        ensures
            final(self).wf(),
            final(self)@.0 == old(self)@.0,
            final(self)@.1 == without_file(old(self)@.1, path@),
            r@ == keys_of_file(old(self)@.1, path@),
    {
        let ghost orig = self@.1;
        let ghost p = path@;
        let mut kept: Vec<(u64, ChunkMeta)> = Vec::new();
        let mut removed: Vec<u64> = Vec::new();
        let mut i: usize = 0;
        while i < self.records.len()
            invariant
                i <= orig.len(),
                p == path@,
                self@.1 == orig,
                keys_ordered(orig, self@.0),
                recs_view(kept@) == orig.subrange(0, i as int).filter(not_in_file(p)),
                removed@ == orig.subrange(0, i as int).filter(in_file(p)).map_values(key_of()),
                keys_ordered(recs_view(kept@), self@.0),
                forall|j: int, k: int|
                    0 <= j < kept@.len() && i <= k < orig.len() ==> (#[trigger] recs_view(
                        kept@,
                    )[j]).0 < (#[trigger] orig[k]).0,
            decreases orig.len() - i,
        {
            let (key, meta) = (self.records[i].0, &self.records[i].1);
            assert(orig[i as int] == (key, meta@));
            assert(in_file(p)(orig[i as int]) == (meta@.file_path == p));
            assert(not_in_file(p)(orig[i as int]) == (meta@.file_path != p));
            assert(orig.subrange(0, i + 1) =~= orig.subrange(0, i as int).push(orig[i as int]));
            proof {
                orig.subrange(0, i as int).lemma_filter_push(orig[i as int], not_in_file(p));
                orig.subrange(0, i as int).lemma_filter_push(orig[i as int], in_file(p));
            }
            let ghost pre = orig.subrange(0, i as int);
            let ghost next = orig.subrange(0, i + 1);
            let fp = meta.file_path.as_str();
            let same = str_eq(fp, path);

            if same {
                let ghost f = pre.filter(in_file(p));
                proof {
                    f.lemma_push_map_commute(key_of(), orig[i as int]);
                }
                assert(key_of()(orig[i as int]) == key);
                removed.push(key);
                assert(next.filter(in_file(p)) == f.push(orig[i as int]));
                assert(removed@ == next.filter(in_file(p)).map_values(key_of()));
                assert(next.filter(not_in_file(p)) == pre.filter(not_in_file(p)));
            } else {
                let ghost before = recs_view(kept@);
                kept.push((key, meta.duplicate()));
                assert(recs_view(kept@) =~= before.push(orig[i as int]));
                assert(next.filter(not_in_file(p)) == pre.filter(not_in_file(p)).push(orig[i as int]));
                assert(next.filter(in_file(p)) == pre.filter(in_file(p)));
            }
            i = i + 1;
        }
        assert(orig.subrange(0, orig.len() as int) =~= orig);
        self.records = kept;
        removed
    }
}


/// The lowercase form of a text, as `str::to_lowercase` gives it.
pub uninterp spec fn lower_of(s: Seq<char>) -> Seq<char>;

/// Relies on `str::to_lowercase`: the lowercase mapping of the text, which
/// depends on its characters alone.
#[verifier::external_body]
fn lowercase(s: &str) -> (r: String)
    ensures
        r@ == lower_of(s@),
{
    s.to_lowercase()
}

pub open spec fn opt_str_view(o: Option<&str>) -> Option<Seq<char>> {
    match o {
        Some(s) => Some(s@),
        None => None,
    }
}

/// A record whose symbol name holds `lower_pattern` once both are in
/// lowercase, and whose kind is `kind` when one is asked for.
pub open spec fn symbol_pred(lower_pattern: Seq<char>, kind: Option<Seq<char>>) -> spec_fn(
    (u64, ChunkMetaView),
) -> bool {
    |e: (u64, ChunkMetaView)|
        e.1.symbol_name is Some && has_infix(lower_of(e.1.symbol_name->0), lower_pattern) && (
        kind is None || e.1.symbol_kind == kind)
}

pub open spec fn meta_of() -> spec_fn((u64, ChunkMetaView)) -> ChunkMetaView {
    |e: (u64, ChunkMetaView)| e.1
}

/// The first `limit` items of `s`.
pub open spec fn first_n<A>(s: Seq<A>, limit: nat) -> Seq<A> {
    if limit < s.len() {
        s.take(limit as int)
    } else {
        s
    }
}

/// Whether a symbol name in lowercase holds a pattern in lowercase.
pub fn name_matches(lower_name: &str, lower_pattern: &str) -> (r: bool)
    ensures
        r == has_infix(lower_name@, lower_pattern@),
{
    contains_text(lower_name, lower_pattern)
}

fn kind_matches(kind: Option<&str>, symbol_kind: &Option<String>) -> (r: bool)
    ensures
        r == (kind is None || opt_view(*symbol_kind) == opt_str_view(kind)),
{
    match kind {
        None => true,
        Some(k) => match symbol_kind {
            Some(sk) => str_eq(sk.as_str(), k),
            None => false,
        },
    }
}

proof fn lemma_first_n_extend<A>(a: Seq<A>, b: Seq<A>, limit: nat)
    requires
        a.len() >= limit,
    ensures
        first_n(a + b, limit) == first_n(a, limit),
{
    assert((a + b).take(limit as int) =~= a.take(limit as int));
}

impl Metadata {
    /// The records, in key order, whose symbol name contains `pattern`
    /// ignoring case, of kind `kind` when one is given: at most `limit`.
    pub fn find_by_symbol(&self, pattern: &str, kind: Option<&str>, limit: usize) -> (r: Vec<ChunkMeta>)
        ensures
            metas_view(r@) == first_n(
                self@.1.filter(symbol_pred(lower_of(pattern@), opt_str_view(kind))).map_values(
                    meta_of(),
                ),
                limit as nat,
            ),
    {
        let lp = lowercase(pattern);
        let ghost recs = self@.1;
        let ghost pred = symbol_pred(lower_of(pattern@), opt_str_view(kind));
        let mut out: Vec<ChunkMeta> = Vec::new();
        let mut i: usize = 0;
        while i < self.records.len() && out.len() < limit
            invariant
                i <= recs.len(),
                recs == self@.1,
                lp@ == lower_of(pattern@),
                pred == symbol_pred(lower_of(pattern@), opt_str_view(kind)),
                out@.len() <= limit,
                metas_view(out@) == recs.subrange(0, i as int).filter(pred).map_values(meta_of()),
            decreases recs.len() - i,
        {
            let meta = &self.records[i].1;
            assert(recs[i as int] == (self.records@[i as int].0, meta@));
            let hit = match &meta.symbol_name {
                Some(name) => {
                    let ln = lowercase(name.as_str());
                    name_matches(ln.as_str(), lp.as_str()) && kind_matches(kind, &meta.symbol_kind)
                },
                None => false,
            };
            assert(hit == pred(recs[i as int]));
            let ghost pre = recs.subrange(0, i as int);
            assert(recs.subrange(0, i + 1) =~= pre.push(recs[i as int]));
            proof {
                pre.lemma_filter_push(recs[i as int], pred);
            }
            if hit {
                let ghost before = metas_view(out@);
                out.push(meta.duplicate());
                proof {
                    pre.filter(pred).lemma_push_map_commute(meta_of(), recs[i as int]);
                }
                assert(metas_view(out@) =~= before.push(meta@));
            }
            i = i + 1;
        }
        proof {
            let all = recs.filter(pred).map_values(meta_of());
            let done = recs.subrange(0, i as int).filter(pred).map_values(meta_of());
            let rest = recs.subrange(i as int, recs.len() as int).filter(pred).map_values(meta_of());
            assert(recs =~= recs.subrange(0, i as int) + recs.subrange(i as int, recs.len() as int));
            Seq::filter_distributes_over_add(
                recs.subrange(0, i as int),
                recs.subrange(i as int, recs.len() as int),
                pred,
            );
            assert(all =~= done + rest);
            if out@.len() >= limit {
                lemma_first_n_extend(done, rest, limit as nat);
                assert(done.take(limit as int) =~= done);
            } else {
                assert(i == recs.len());
                assert(rest.len() == 0);
                assert(all =~= done);
            }
        }
        out
    }
}


/// The record stored under key `k`.
pub open spec fn record_with(r: Seq<(u64, ChunkMetaView)>, k: u64) -> ChunkMetaView {
    r[choose|i: int| 0 <= i < r.len() && (#[trigger] r[i]).0 == k].1
}

/// Of the first `n` keys, the positions of those that are stored, in order,
/// each with its record.
pub open spec fn stored_hits(r: Seq<(u64, ChunkMetaView)>, keys: Seq<u64>, n: int) -> Seq<
    (int, ChunkMetaView),
>
    decreases n,
{
    if n <= 0 {
        Seq::empty()
    } else {
        let prev = stored_hits(r, keys, n - 1);
        if key_set(r).contains(keys[n - 1]) {
            prev.push((n - 1, record_with(r, keys[n - 1])))
        } else {
            prev
        }
    }
}

pub open spec fn hits_view(v: Seq<(usize, ChunkMeta)>) -> Seq<(int, ChunkMetaView)> {
    Seq::new(v.len(), |i: int| (v[i].0 as int, v[i].1@))
}

/// Texts in strictly ascending order, with no two equal.
pub open spec fn sorted_texts(s: Seq<Seq<char>>) -> bool {
    &&& forall|i: int| 0 <= i < s.len() - 1 ==> text_lt(#[trigger] s[i], s[i + 1])
    &&& forall|i: int, j: int| 0 <= i < j < s.len() ==> #[trigger] s[i] != #[trigger] s[j]
}

/// A record of language `language`, or any record when none is given.
pub open spec fn in_language(e: (u64, ChunkMetaView), language: Option<Seq<char>>) -> bool {
    language is None || e.1.language == language->0
}

/// Whether some record has file path `path` and is in `language` (any
/// language when none is given).
pub open spec fn has_file(
    r: Seq<(u64, ChunkMetaView)>,
    language: Option<Seq<char>>,
    path: Seq<char>,
) -> bool {
    exists|i: int| 0 <= i < r.len() && #[trigger] r[i].1.file_path == path && in_language(r[i], language)
}

#[verifier::rlimit(40)]
#[verifier::spinoff_prover]
proof fn lemma_sorted_text_insert(s: Seq<Seq<char>>, p: int, x: Seq<char>)
    requires
        sorted_texts(s),
        0 <= p <= s.len(),
        !s.contains(x),
        forall|k: int| 0 <= k < p ==> text_lt(#[trigger] s[k], x),
        p < s.len() ==> text_lt(x, s[p]),
    ensures
        sorted_texts(s.insert(p, x)),
        forall|t: Seq<char>| #[trigger] s.insert(p, x).contains(t) <==> (s.contains(t) || t == x),
{
    let u = s.insert(p, x);
    assert forall|i: int| 0 <= i < u.len() - 1 implies text_lt(#[trigger] u[i], u[i + 1]) by {
        if i < p - 1 {
            assert(u[i] == s[i] && u[i + 1] == s[i + 1]);
        } else if i == p - 1 {
            assert(u[i] == s[i]);
        } else if i == p {
            assert(u[i + 1] == s[i]);
        } else {
            assert(u[i] == s[i - 1] && u[i + 1] == s[i]);
        }
    }
    assert forall|i: int, j: int| 0 <= i < j < u.len() implies #[trigger] u[i] != #[trigger] u[j] by {
        if i != p && j != p {
            let oi = if i < p { i } else { i - 1 };
            let oj = if j < p { j } else { j - 1 };
            assert(u[i] == s[oi] && u[j] == s[oj]);
        } else if i == p {
            assert(u[j] == s[j - 1]);
        } else {
            assert(u[i] == s[i]);
        }
    }
    assert forall|t: Seq<char>| #[trigger] u.contains(t) <==> (s.contains(t) || t == x) by {
        if u.contains(t) {
            let k = choose|k: int| 0 <= k < u.len() && u[k] == t;
            if k < p {
                assert(s[k] == t);
            } else if k > p {
                assert(s[k - 1] == t);
            }
        }
        if s.contains(t) {
            let k = choose|k: int| 0 <= k < s.len() && s[k] == t;
            if k < p {
                assert(u[k] == t);
            } else {
                assert(u[k + 1] == t);
            }
        }
        if t == x {
            assert(u[p] == t);
        }
    }
}

fn contains_string(v: &Vec<String>, x: &Vec<char>) -> (r: bool)
    ensures
        r == strings_view(v@).contains(x@),
{
    let mut k: usize = 0;
    while k < v.len()
        invariant
            k <= v.len(),
            forall|m: int| 0 <= m < k ==> strings_view(v@)[m] != x@,
        decreases v.len() - k,
    {
        if same_chars(&to_chars(v[k].as_str()), x) {
            assert(strings_view(v@)[k as int] == x@);
            return true;
        }
        k = k + 1;
    }
    false
}

fn language_matches(language: Option<&str>, lang: &String) -> (r: bool)
    ensures
        r == (language is None || lang@ == language->0@),
{
    match language {
        None => true,
        Some(l) => str_eq(lang.as_str(), l),
    }
}

impl Metadata {
    /// The distinct file paths of the records, in ascending order; only
    /// those of language `language` when one is given.
    pub fn list_files(&self, language: Option<&str>) -> (r: Vec<String>)
        ensures
            sorted_texts(strings_view(r@)),
            forall|t: Seq<char>|
                #[trigger] strings_view(r@).contains(t) <==> has_file(
                    self@.1,
                    opt_str_view(language),
                    t,
                ),
    {
        let ghost recs = self@.1;
        let ghost lang = opt_str_view(language);
        let mut out: Vec<String> = Vec::new();
        let mut i: usize = 0;
        while i < self.records.len()
            invariant
                i <= recs.len(),
                recs == self@.1,
                lang == opt_str_view(language),
                sorted_texts(strings_view(out@)),
                forall|t: Seq<char>|
                    #[trigger] strings_view(out@).contains(t) <==> has_file(
                        recs.subrange(0, i as int),
                        lang,
                        t,
                    ),
            decreases recs.len() - i,
        {
            let meta = &self.records[i].1;
            assert(recs[i as int] == (self.records@[i as int].0, meta@));
            let ghost pre = recs.subrange(0, i as int);
            let ghost next = recs.subrange(0, i + 1);
            assert forall|t: Seq<char>|
                #[trigger] has_file(next, lang, t) <==> (has_file(pre, lang, t) || (t
                    == meta@.file_path && in_language(recs[i as int], lang))) by {
                if has_file(next, lang, t) {
                    let k = choose|k: int|
                        0 <= k < next.len() && #[trigger] next[k].1.file_path == t && in_language(
                            next[k],
                            lang,
                        );
                    if k < i {
                        assert(pre[k] == next[k]);
                    }
                }
                if has_file(pre, lang, t) {
                    let k = choose|k: int|
                        0 <= k < pre.len() && #[trigger] pre[k].1.file_path == t && in_language(
                            pre[k],
                            lang,
                        );
                    assert(next[k] == pre[k]);
                }
                if t == meta@.file_path && in_language(recs[i as int], lang) {
                    assert(next[i as int] == recs[i as int]);
                }
            }
            if language_matches(language, &meta.language) {
                let fp = to_chars(meta.file_path.as_str());
                if !contains_string(&out, &fp) {
                    let ghost sv = strings_view(out@);
                    let mut p: usize = 0;
                    while p < out.len() && less_than(&to_chars(out[p].as_str()), &fp)
                        invariant
                            p <= out@.len(),
                            sv == strings_view(out@),
                            forall|k: int| 0 <= k < p ==> text_lt(#[trigger] sv[k], fp@),
                        decreases out@.len() - p,
                    {
                        p = p + 1;
                    }
                    proof {
                        if p < sv.len() {
                            assert(sv[p as int] != fp@);
                            lemma_lt_total(sv[p as int], fp@, 0);
                        }
                        lemma_sorted_text_insert(sv, p as int, fp@);
                    }
                    out.insert(p, meta.file_path.clone());
                    assert(strings_view(out@) =~= sv.insert(p as int, fp@));
                }
            }
            i = i + 1;
        }
        assert(recs.subrange(0, recs.len() as int) =~= recs);
        out
    }

    /// The record stored under `key`.
    pub fn lookup(&self, key: u64) -> (r: Option<&ChunkMeta>)
        ensures
            match r {
                Some(m) => exists|i: int| 0 <= i < self@.1.len() && #[trigger] self@.1[i] == (key, m@),
                None => !key_set(self@.1).contains(key),
            },
    {
        let mut i: usize = 0;
        while i < self.records.len()
            invariant
                i <= self@.1.len(),
                forall|k: int| 0 <= k < i ==> (#[trigger] self@.1[k]).0 != key,
            decreases self@.1.len() - i,
        {
            assert(self@.1[i as int] == (self.records@[i as int].0, self.records@[i as int].1@));
            if self.records[i].0 == key {
                return Some(&self.records[i].1);
            }
            i = i + 1;
        }
        None
    }

    /// The keys that a nearest-neighbour search returned, resolved to their
    /// records: the position of each stored key, in order, with its record;
    /// keys no longer stored are left out.
    pub fn hits(&self, keys: &Vec<u64>) -> (r: Vec<(usize, ChunkMeta)>)
        requires
            self.wf(),
        ensures
            hits_view(r@) == stored_hits(self@.1, keys@, keys@.len() as int),
    {
        let ghost recs = self@.1;
        let mut out: Vec<(usize, ChunkMeta)> = Vec::new();
        let mut i: usize = 0;
        while i < keys.len()
            invariant
                i <= keys.len(),
                recs == self@.1,
                keys_ordered(recs, self@.0),
                hits_view(out@) == stored_hits(recs, keys@, i as int),
            decreases keys.len() - i,
        {
            let ghost before = hits_view(out@);
            match self.lookup(keys[i]) {
                Some(m) => {
                    let k = keys[i];
                    proof {
                        let j = choose|j: int| 0 <= j < recs.len() && #[trigger] recs[j] == (k, m@);
                        assert(recs.map_values(|e: (u64, ChunkMetaView)| e.0)[j] == k);
                        assert(key_set(recs).contains(k));
                        let c = choose|c: int| 0 <= c < recs.len() && (#[trigger] recs[c]).0 == k;
                        if c != j {
                            if c < j {
                                assert(recs[c].0 < recs[j].0);
                            } else {
                                assert(recs[j].0 < recs[c].0);
                            }
                        }
                        assert(record_with(recs, k) == m@);
                    }
                    out.push((i, m.duplicate()));
                    assert(hits_view(out@) =~= before.push((i as int, m@)));
                },
                None => {},
            }
            i = i + 1;
        }
        out
    }

    /// Whether `key` is stored with language `language`: the filter that a
    /// language-restricted nearest-neighbour search applies to each key.
    pub fn key_in_language(&self, key: u64, language: &str) -> (r: bool)
        ensures
            r == exists|i: int|
                0 <= i < self@.1.len() && (#[trigger] self@.1[i]).0 == key && self@.1[i].1.language
                    == language@,
    {
        let mut i: usize = 0;
        while i < self.records.len()
            invariant
                i <= self@.1.len(),
                forall|k: int|
                    0 <= k < i ==> !((#[trigger] self@.1[k]).0 == key && self@.1[k].1.language
                        == language@),
            decreases self@.1.len() - i,
        {
            assert(self@.1[i as int] == (self.records@[i as int].0, self.records@[i as int].1@));
            if self.records[i].0 == key && str_eq(self.records[i].1.language.as_str(), language) {
                return true;
            }
            i = i + 1;
        }
        false
    }
}


/// What a store saves can be loaded back: the parts of a well-formed
/// metadata pass the checks of `restore`, which then gives back the same
/// next key and records.
pub proof fn lemma_restore_round_trip(m: &Metadata, next_key: u64, records: Seq<(u64, ChunkMeta)>)
    requires
        m.wf(),
        next_key == m@.0,
        recs_view(records) == m@.1,
    ensures
        keys_ordered(recs_view(records), next_key as nat),
{
}

/// An index that holds the keys of the metadata still does once the keys
/// that `insert` hands back are added to it.
pub proof fn lemma_insert_keys(before: Seq<(u64, ChunkMetaView)>, next: nat, rows: Seq<ChunkMetaView>)
    requires
        next + rows.len() <= u64::MAX,
    ensures
        key_set(before + keyed(rows, next)) == key_set(before) + Seq::new(
            rows.len(),
            |i: int| (next + i) as u64,
        ).to_set(),
{
    let after = before + keyed(rows, next);
    let fresh = Seq::new(rows.len(), |i: int| (next + i) as u64);
    assert forall|k: u64| #[trigger] key_set(after).contains(k) <==> (key_set(before).contains(k)
        || fresh.to_set().contains(k)) by {
        let am = after.map_values(|e: (u64, ChunkMetaView)| e.0);
        let bm = before.map_values(|e: (u64, ChunkMetaView)| e.0);
        if am.contains(k) {
            let i = choose|i: int| 0 <= i < am.len() && am[i] == k;
            if i < before.len() {
                assert(bm[i] == k);
            } else {
                assert(fresh[i - before.len()] == k);
            }
        }
        if bm.contains(k) {
            let i = choose|i: int| 0 <= i < bm.len() && bm[i] == k;
            assert(am[i] == k);
        }
        if fresh.contains(k) {
            let i = choose|i: int| 0 <= i < fresh.len() && fresh[i] == k;
            assert(am[before.len() + i] == k);
        }
    }
    assert(key_set(after) =~= key_set(before) + fresh.to_set());
}

/// An index that holds the keys of the metadata still does once the keys
/// that `delete_file` hands back are removed from it.
pub proof fn lemma_delete_keys(before: Seq<(u64, ChunkMetaView)>, next: nat, p: Seq<char>)
    requires
        keys_ordered(before, next),
    ensures
        key_set(without_file(before, p)) == key_set(before) - keys_of_file(before, p).to_set(),
{
    let kept = without_file(before, p);
    let gone = before.filter(in_file(p));
    let km = kept.map_values(|e: (u64, ChunkMetaView)| e.0);
    let bm = before.map_values(|e: (u64, ChunkMetaView)| e.0);
    let gm = keys_of_file(before, p);
    assert forall|k: u64| #[trigger] key_set(kept).contains(k) <==> (key_set(before).contains(k)
        && !gm.to_set().contains(k)) by {
        if km.contains(k) {
            let i = choose|i: int| 0 <= i < km.len() && km[i] == k;
            before.lemma_filter_contains_rev(not_in_file(p), kept[i]);
            let j = choose|j: int| 0 <= j < before.len() && before[j] == kept[i];
            assert(bm[j] == k);
            if gm.contains(k) {
                let g = choose|g: int| 0 <= g < gm.len() && gm[g] == k;
                before.lemma_filter_contains_rev(in_file(p), gone[g]);
                let j2 = choose|j2: int| 0 <= j2 < before.len() && before[j2] == gone[g];
                assert(before[j2].0 == k);
                assert(before[j].0 == k);
                assert(j == j2);
            }
        }
        if bm.contains(k) && !gm.contains(k) {
            let j = choose|j: int| 0 <= j < bm.len() && bm[j] == k;
            if before[j].1.file_path == p {
                before.lemma_filter_contains(in_file(p), j);
                let g = choose|g: int| 0 <= g < gone.len() && gone[g] == before[j];
                assert(gm[g] == k);
            } else {
                before.lemma_filter_contains(not_in_file(p), j);
                let g = choose|g: int| 0 <= g < kept.len() && kept[g] == before[j];
                assert(km[g] == k);
            }
        }
    }
    assert(key_set(kept) =~= key_set(before) - gm.to_set());
}

/// An index that holds the keys of the metadata still does once the keys
/// that `replace_file` removed are taken out of it and those it gave are
/// added.
pub proof fn lemma_replace_keys(
    before: Seq<(u64, ChunkMetaView)>,
    next: nat,
    p: Seq<char>,
    rows: Seq<ChunkMetaView>,
)
    requires
        keys_ordered(before, next),
        next + rows.len() <= u64::MAX,
    ensures
        key_set(reindexed(before, next, p, rows)) == (key_set(before) - keys_of_file(
            before,
            p,
        ).to_set()) + Seq::new(rows.len(), |i: int| (next + i) as u64).to_set(),
{
    lemma_delete_keys(before, next, p);
    lemma_insert_keys(without_file(before, p), next, rows);
}

/// With keys in ascending order, there are as many keys as records: an
/// index that holds the keys of the metadata has as many entries as it.
pub proof fn lemma_key_count(r: Seq<(u64, ChunkMetaView)>, next: nat)
    requires
        keys_ordered(r, next),
    ensures
        key_set(r).len() == r.len(),
{
    let m = r.map_values(|e: (u64, ChunkMetaView)| e.0);
    assert(m.no_duplicates()) by {
        assert forall|i: int, j: int| 0 <= i < m.len() && 0 <= j < m.len() && i != j implies m[i]
            != m[j] by {
            if i < j {
                assert(r[i].0 < r[j].0);
            } else {
                assert(r[j].0 < r[i].0);
            }
        }
    }
    m.unique_seq_to_set();
}


/// The records after the rows of file `p` are replaced by `rows`, stored
/// under keys from `next` on: what re-indexing one file does.
pub open spec fn reindexed(
    r: Seq<(u64, ChunkMetaView)>,
    next: nat,
    p: Seq<char>,
    rows: Seq<ChunkMetaView>,
) -> Seq<(u64, ChunkMetaView)> {
    without_file(r, p) + keyed(rows, next)
}

/// Records whose file is not among `paths`.
pub open spec fn outside(paths: Set<Seq<char>>) -> spec_fn((u64, ChunkMetaView)) -> bool {
    |e: (u64, ChunkMetaView)| !paths.contains(e.1.file_path)
}

/// The paths of the files of a pass.
pub open spec fn pass_paths(files: Seq<(Seq<char>, Seq<ChunkMetaView>)>) -> Set<Seq<char>>
    decreases files.len(),
{
    if files.len() == 0 {
        Set::empty()
    } else {
        pass_paths(files.drop_first()).insert(files[0].0)
    }
}

/// The number of rows of the files of a pass.
pub open spec fn pass_rows(files: Seq<(Seq<char>, Seq<ChunkMetaView>)>) -> nat
    decreases files.len(),
{
    if files.len() == 0 {
        0
    } else {
        files[0].1.len() + pass_rows(files.drop_first())
    }
}

/// The rows of the files of a pass, in order, under keys from `next` on.
pub open spec fn pass_keyed(files: Seq<(Seq<char>, Seq<ChunkMetaView>)>, next: nat) -> Seq<
    (u64, ChunkMetaView),
>
    decreases files.len(),
{
    if files.len() == 0 {
        Seq::empty()
    } else {
        keyed(files[0].1, next) + pass_keyed(files.drop_first(), next + files[0].1.len())
    }
}

/// The records after one pass over a directory: each file in turn has its
/// rows replaced, under keys from `next` on, as `Metadata::replace_file`
/// does when called for each file in walk order.
pub open spec fn index_pass(
    r: Seq<(u64, ChunkMetaView)>,
    next: nat,
    files: Seq<(Seq<char>, Seq<ChunkMetaView>)>,
) -> Seq<(u64, ChunkMetaView)>
    decreases files.len(),
{
    if files.len() == 0 {
        r
    } else {
        index_pass(
            reindexed(r, next, files[0].0, files[0].1),
            next + files[0].1.len(),
            files.drop_first(),
        )
    }
}

/// Each file's rows carry its path, and no path comes twice.
pub open spec fn pass_files_ok(files: Seq<(Seq<char>, Seq<ChunkMetaView>)>) -> bool {
    &&& forall|j: int, i: int|
        0 <= j < files.len() && 0 <= i < files[j].1.len() ==> (#[trigger] files[j].1[i]).file_path
            == files[j].0
    &&& forall|a: int, b: int| 0 <= a < b < files.len() ==> #[trigger] files[a].0 != #[trigger] files[b].0
}

/// Filtering by `a`, then by `b`, is filtering by `c` where `c` is both.
proof fn lemma_filter_filter<A>(s: Seq<A>, a: spec_fn(A) -> bool, b: spec_fn(A) -> bool, c: spec_fn(A) -> bool)
    requires
        forall|x: A| #[trigger] c(x) == (a(x) && b(x)),
    ensures
        s.filter(a).filter(b) == s.filter(c),
    decreases s.len(),
{
    if s.len() > 0 {
        let t = s.drop_last();
        lemma_filter_filter(t, a, b, c);
        assert(t.push(s.last()) =~= s);
        t.lemma_filter_push(s.last(), a);
        t.lemma_filter_push(s.last(), c);
        t.filter(a).lemma_filter_push(s.last(), b);
    } else {
        assert(s.filter(a).filter(b) =~= s.filter(c));
    }
}

/// Filtering a sequence none of whose items pass leaves nothing.
proof fn lemma_filter_none<A>(s: Seq<A>, f: spec_fn(A) -> bool)
    requires
        forall|i: int| 0 <= i < s.len() ==> !f(#[trigger] s[i]),
    ensures
        s.filter(f) == Seq::<A>::empty(),
    decreases s.len(),
{
    if s.len() > 0 {
        lemma_filter_none(s.drop_last(), f);
        assert(s.drop_last().push(s.last()) =~= s);
        s.drop_last().lemma_filter_push(s.last(), f);
    } else {
        assert(s.filter(f) =~= Seq::<A>::empty());
    }
}

/// The keyed rows of a pass carry the paths of its files; their number and
/// their metadata do not depend on the first key.
proof fn lemma_pass_keyed(files: Seq<(Seq<char>, Seq<ChunkMetaView>)>, a: nat, b: nat)
    requires
        pass_files_ok(files),
    ensures
        pass_keyed(files, a).len() == pass_rows(files),
        pass_keyed(files, b).len() == pass_rows(files),
        forall|i: int|
            0 <= i < pass_rows(files) ==> (#[trigger] pass_keyed(files, a)[i]).1 == pass_keyed(
                files,
                b,
            )[i].1,
        forall|i: int|
            0 <= i < pass_rows(files) ==> pass_paths(files).contains(
                (#[trigger] pass_keyed(files, a)[i]).1.file_path,
            ),
    decreases files.len(),
{
    if files.len() > 0 {
        let rest = files.drop_first();
        assert(pass_files_ok(rest)) by {
            assert forall|j: int, i: int| 0 <= j < rest.len() && 0 <= i < rest[j].1.len() implies (
            #[trigger] rest[j].1[i]).file_path == rest[j].0 by {
                assert(rest[j] == files[j + 1]);
            }
            assert forall|x: int, y: int| 0 <= x < y < rest.len() implies #[trigger] rest[x].0
                != #[trigger] rest[y].0 by {
                assert(rest[x] == files[x + 1] && rest[y] == files[y + 1]);
            }
        }
        let n0 = files[0].1.len();
        lemma_pass_keyed(rest, a + n0, b + n0);
        let ka = pass_keyed(files, a);
        let kb = pass_keyed(files, b);
        assert forall|i: int| 0 <= i < pass_rows(files) implies (#[trigger] ka[i]).1 == kb[i].1
            && pass_paths(files).contains(ka[i].1.file_path) by {
            if i < n0 {
                assert(ka[i] == keyed(files[0].1, a)[i]);
                assert(kb[i] == keyed(files[0].1, b)[i]);
                assert(files[0].1[i].file_path == files[0].0);
            } else {
                assert(ka[i] == pass_keyed(rest, a + n0)[i - n0]);
                assert(kb[i] == pass_keyed(rest, b + n0)[i - n0]);
            }
        }
    }
}

/// A pass leaves the records of the other files, in order, then the rows of
/// its files.
proof fn lemma_index_pass(
    r: Seq<(u64, ChunkMetaView)>,
    next: nat,
    files: Seq<(Seq<char>, Seq<ChunkMetaView>)>,
)
    requires
        pass_files_ok(files),
    ensures
        index_pass(r, next, files) == r.filter(outside(pass_paths(files))) + pass_keyed(files, next),
    decreases files.len(),
{
    if files.len() == 0 {
        lemma_filter_all(r, outside(pass_paths(files)));
        assert(r + Seq::<(u64, ChunkMetaView)>::empty() =~= r);
    } else {
        let rest = files.drop_first();
        let p0 = files[0].0;
        let k0 = keyed(files[0].1, next);
        let n1 = next + files[0].1.len();
        assert(pass_files_ok(rest)) by {
            assert forall|j: int, i: int| 0 <= j < rest.len() && 0 <= i < rest[j].1.len() implies (
            #[trigger] rest[j].1[i]).file_path == rest[j].0 by {
                assert(rest[j] == files[j + 1]);
            }
            assert forall|x: int, y: int| 0 <= x < y < rest.len() implies #[trigger] rest[x].0
                != #[trigger] rest[y].0 by {
                assert(rest[x] == files[x + 1] && rest[y] == files[y + 1]);
            }
        }
        let r1 = reindexed(r, next, p0, files[0].1);
        lemma_index_pass(r1, n1, rest);
        let pr = pass_paths(rest);
        assert(!pr.contains(p0)) by {
            lemma_pass_paths_members(rest);
            if pr.contains(p0) {
                let j = choose|j: int| 0 <= j < rest.len() && rest[j].0 == p0;
                assert(files[j + 1].0 == files[0].0);
            }
        }
        Seq::filter_distributes_over_add(without_file(r, p0), k0, outside(pr));
        lemma_filter_all(k0, outside(pr));
        lemma_filter_filter(r, not_in_file(p0), outside(pr), outside(pass_paths(files)));
        assert(index_pass(r, next, files) =~= r.filter(outside(pass_paths(files))) + (k0
            + pass_keyed(rest, n1)));
    }
}

/// Every path of a pass is the path of one of its files.
proof fn lemma_pass_paths_members(files: Seq<(Seq<char>, Seq<ChunkMetaView>)>)
    ensures
        forall|t: Seq<char>|
            #[trigger] pass_paths(files).contains(t) ==> exists|j: int|
                0 <= j < files.len() && files[j].0 == t,
    decreases files.len(),
{
    if files.len() > 0 {
        let rest = files.drop_first();
        lemma_pass_paths_members(rest);
        assert forall|t: Seq<char>| #[trigger] pass_paths(files).contains(t) implies exists|j: int|
            0 <= j < files.len() && files[j].0 == t by {
            assert(pass_paths(files) == pass_paths(rest).insert(files[0].0));
            if t != files[0].0 {
                assert(pass_paths(rest).contains(t));
                let j = choose|j: int| 0 <= j < rest.len() && rest[j].0 == t;
                assert(files[j + 1].0 == t);
            } else {
                assert(files[0].0 == t);
            }
        }
    }
}

/// Indexing a directory a second time, with no file changed, leaves the
/// same number of records and the same files, in every language.
pub proof fn lemma_index_pass_idempotent(
    r: Seq<(u64, ChunkMetaView)>,
    next: nat,
    files: Seq<(Seq<char>, Seq<ChunkMetaView>)>,
)
    requires
        pass_files_ok(files),
    ensures
        index_pass(index_pass(r, next, files), next + pass_rows(files), files).len()
            == index_pass(r, next, files).len(),
        forall|language: Option<Seq<char>>, t: Seq<char>|
            #[trigger] has_file(
                index_pass(index_pass(r, next, files), next + pass_rows(files), files),
                language,
                t,
            ) == has_file(index_pass(r, next, files), language, t),
{
    let n2 = next + pass_rows(files);
    let ps = pass_paths(files);
    let once = index_pass(r, next, files);
    let twice = index_pass(once, n2, files);
    lemma_index_pass(r, next, files);
    lemma_index_pass(once, n2, files);
    lemma_pass_keyed(files, next, n2);
    let base = r.filter(outside(ps));
    let k1 = pass_keyed(files, next);
    let k2 = pass_keyed(files, n2);
    Seq::filter_distributes_over_add(base, k1, outside(ps));
    broadcast use vstd::seq_lib::group_filter_ensures;

    lemma_filter_all(base, outside(ps));
    lemma_filter_none(k1, outside(ps));
    assert(twice =~= base + k2);
    assert forall|language: Option<Seq<char>>, t: Seq<char>|
        #[trigger] has_file(twice, language, t) == has_file(once, language, t) by {
        if has_file(twice, language, t) {
            let i = choose|i: int|
                0 <= i < twice.len() && #[trigger] twice[i].1.file_path == t && in_language(
                    twice[i],
                    language,
                );
            if i >= base.len() {
                assert(twice[i].1 == once[i].1);
            } else {
                assert(twice[i] == once[i]);
            }
        }
        if has_file(once, language, t) {
            let i = choose|i: int|
                0 <= i < once.len() && #[trigger] once[i].1.file_path == t && in_language(
                    once[i],
                    language,
                );
            if i >= base.len() {
                assert(twice[i].1 == once[i].1);
            } else {
                assert(twice[i] == once[i]);
            }
        }
    }
}

/// Filtering a sequence all of whose items pass leaves it as it is.
proof fn lemma_filter_all<A>(s: Seq<A>, f: spec_fn(A) -> bool)
    requires
        forall|i: int| 0 <= i < s.len() ==> f(#[trigger] s[i]),
    ensures
        s.filter(f) == s,
    decreases s.len(),
{
    if s.len() > 0 {
        lemma_filter_all(s.drop_last(), f);
        assert(s.drop_last().push(s.last()) =~= s);
        s.drop_last().lemma_filter_push(s.last(), f);
    } else {
        assert(s.filter(f) =~= s);
    }
}

} // verus!
