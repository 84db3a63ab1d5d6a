//! The vector search over stored chunks: the query text and the ranking of
//! the rows it returns.
use vstd::prelude::*;
use vstd::string::StringExecFns;

use crate::text::{decimal, push_decimal};

verus! {

/// The text of the search query up to the number of neighbours.
pub const VECTOR_SEARCH_HEAD: &'static str =
    "SELECT c.content, d.title, d.source_path FROM vector_top_k('idx_chunks_embedding', vector32(?1), ";

/// The text of the search query after the number of neighbours.
pub const VECTOR_SEARCH_TAIL: &'static str =
    ") AS v JOIN chunks AS c ON c.rowid = v.id JOIN documents AS d ON d.id = c.document_id";

/// A chunk found by the vector search, with its document.
///
/// The search index gives no distances, only an order: the hit at `rank`
/// (0 for the closest) among at most `total` requested scores
/// `1 - rank / total`.
#[derive(Debug)]
pub struct SearchHit {
    pub rank: u32,
    pub total: u32,
    pub content: String,
    pub doc_title: String,
    pub doc_path: String,
}

/// One row of the search: a chunk's content, its document's title and path.
#[derive(Debug)]
pub struct SearchRow {
    pub content: String,
    pub doc_title: String,
    pub doc_path: String,
}

/// The query that finds the `top_k` chunks closest to the embedding bound to
/// `?1`, each with its document's title and path. The number is written
/// into the text: the index function takes no parameter there.
pub fn vector_search_sql(top_k: usize) -> (sql: String)
    ensures
        sql@ == VECTOR_SEARCH_HEAD@ + decimal(top_k as nat) + VECTOR_SEARCH_TAIL@,
{
    let mut sql = String::from_str(VECTOR_SEARCH_HEAD);
    push_decimal(&mut sql, top_k);
    sql.append(VECTOR_SEARCH_TAIL);
    sql
}

/// The denominator of the scores: `top_k`, or `u32::MAX` if it does not fit.
pub open spec fn score_total(top_k: nat) -> u32 {
    if top_k <= u32::MAX {
        top_k as u32
    } else {
        u32::MAX
    }
}

/// The search's rows, in the order the index returned them, as ranked hits.
pub fn rank_hits(rows: Vec<SearchRow>, top_k: usize) -> (hits: Vec<SearchHit>)
    requires
        rows@.len() <= u32::MAX,
    ensures
        hits@.len() == rows@.len(),
        forall|i: int|
            0 <= i < hits@.len() ==> {
                &&& (#[trigger] hits@[i]).rank == i
                &&& hits@[i].total == score_total(top_k as nat)
                &&& hits@[i].content == rows@[i].content
                &&& hits@[i].doc_title == rows@[i].doc_title
                &&& hits@[i].doc_path == rows@[i].doc_path
            },
{
    let total: u32 = if top_k <= u32::MAX as usize {
        top_k as u32
    } else {
        u32::MAX
    };
    let mut hits: Vec<SearchHit> = Vec::new();
    let mut rank: u32 = 0;
    for row in it: rows
        invariant
            it.seq() == rows@,
            hits@.len() == it.index(),
            rank == it.index(),
            it.seq().len() <= u32::MAX,
            total == score_total(top_k as nat),
            forall|i: int|
                0 <= i < hits@.len() ==> {
                    &&& (#[trigger] hits@[i]).rank == i
                    &&& hits@[i].total == total
                    &&& hits@[i].content == rows@[i].content
                    &&& hits@[i].doc_title == rows@[i].doc_title
                    &&& hits@[i].doc_path == rows@[i].doc_path
                },
    {
        hits.push(
            SearchHit {
                rank,
                total,
                content: row.content,
                doc_title: row.doc_title,
                doc_path: row.doc_path,
            },
        );
        rank = rank + 1;
    }
    hits
}

} // verus!
