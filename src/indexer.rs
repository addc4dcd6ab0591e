//! The decisions of the indexing pipeline that do not touch the file
//! system: which entries are skipped, what rows a chunked file becomes, and
//! when a batch is embedded and stored.

use vstd::prelude::*;
use crate::chunker::{kind_label, opt_view, Chunk};
use crate::store::{ChunkMeta, ChunkMetaView};
use crate::text::to_chars;

verus! {

/// Number of pending rows at which they are embedded and stored together.
pub const BATCH_SIZE: usize = 64;

/// Whether the pending rows fill a batch.
pub fn should_flush(pending: usize) -> (r: bool)
    ensures
        r == (pending >= BATCH_SIZE),
{
    pending >= BATCH_SIZE
}

/// Whether a directory entry is hidden: below the root, with a name that
/// starts with `'.'`.
pub fn is_hidden(depth: usize, name: Option<&str>) -> (r: bool)
    ensures
        r == (depth > 0 && match name {
            Some(n) => n@.len() > 0 && n@[0] == '.',
            None => false,
        }),
{
    if depth == 0 {
        return false;
    }
    match name {
        Some(n) => {
            let c = to_chars(n);
            c.len() > 0 && c[0] == '.'
        },
        None => false,
    }
}

/// The row that the chunk at position `i` of a file becomes.
pub open spec fn pending_row(
    rel_path: Seq<char>,
    language: Seq<char>,
    last_modified: int,
    i: int,
    c: Chunk,
) -> ChunkMetaView {
    ChunkMetaView {
        file_path: rel_path,
        chunk_id: i,
        content: c.content@,
        symbol_name: opt_view(c.symbol_name),
        symbol_kind: Some(kind_label(c.symbol_kind)),
        language,
        start_line: c.start_line as int,
        end_line: c.end_line as int,
        last_modified,
    }
}

fn clone_opt(o: &Option<String>) -> (r: Option<String>)
    ensures
        opt_view(r) == opt_view(*o),
{
    match o {
        Some(s) => Some(s.clone()),
        None => None,
    }
}

/// The rows to store for the chunks of one file, in emission order, each
/// with its position in the file as `chunk_id`.
pub fn pending_rows(rel_path: &str, language: &str, last_modified: i64, chunks: &Vec<Chunk>) -> (r:
    Vec<ChunkMeta>)
    requires
        chunks.len() <= i64::MAX,
        forall|k: int|
            0 <= k < chunks.len() ==> (#[trigger] chunks@[k]).start_line <= i64::MAX
                && chunks@[k].end_line <= i64::MAX,
    ensures
        r@.len() == chunks@.len(),
        forall|k: int|
            0 <= k < r@.len() ==> (#[trigger] r@[k])@ == pending_row(
                rel_path@,
                language@,
                last_modified as int,
                k,
                chunks@[k],
            ),
{
    let mut out: Vec<ChunkMeta> = Vec::new();
    let mut i: usize = 0;
    while i < chunks.len()
        invariant
            i <= chunks.len(),
            chunks.len() <= i64::MAX,
            forall|k: int|
                0 <= k < chunks.len() ==> (#[trigger] chunks@[k]).start_line <= i64::MAX
                    && chunks@[k].end_line <= i64::MAX,
            out@.len() == i,
            forall|k: int|
                0 <= k < i ==> (#[trigger] out@[k])@ == pending_row(
                    rel_path@,
                    language@,
                    last_modified as int,
                    k,
                    chunks@[k],
                ),
        decreases chunks.len() - i,
    {
        let c = &chunks[i];
        let kind = Some(c.symbol_kind.to_string());
        let row = ChunkMeta {
            file_path: rel_path.to_owned(),
            chunk_id: i as i64,
            content: c.content.clone(),
            symbol_name: clone_opt(&c.symbol_name),
            symbol_kind: kind,
            language: language.to_owned(),
            start_line: c.start_line as i64,
            end_line: c.end_line as i64,
            last_modified,
        };
        out.push(row);
        i = i + 1;
    }
    out
}

} // verus!
