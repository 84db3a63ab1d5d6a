//! The decisions of document ingestion: which files a list of paths names,
//! whether a file must be (re-)ingested, its title, and how it is chunked.
use vstd::prelude::*;
use vstd::string::StringExecFns;

use crate::chunk::{chunk_contents, chunk_text, chunks_match, Chunk};

verus! {

/// Characters per chunk when a document is ingested.
pub const CHUNK_SIZE: usize = 500;

/// Characters shared by consecutive chunks when a document is ingested.
pub const CHUNK_OVERLAP: usize = 50;

/// A path given to ingestion, as found on disk: a file, a directory with its
/// entries (in the order the directory lists them), or anything else.
pub enum FsEntry<P> {
    File(P),
    Dir(P, Vec<FsEntry<P>>),
    Other(P),
}

/// The files found by walking `e`: `e` itself if it is a file, the files
/// under it if it is a directory, nothing otherwise.
pub open spec fn walked<P>(e: FsEntry<P>) -> Seq<P>
    decreases e,
{
    match e {
        FsEntry::File(p) => seq![p],
        FsEntry::Dir(_, entries) => walked_all(entries@),
        FsEntry::Other(_) => seq![],
    }
}

/// The files found by walking each of `es`, in order.
pub open spec fn walked_all<P>(es: Seq<FsEntry<P>>) -> Seq<P>
    decreases es,
{
    if es.len() == 0 {
        seq![]
    } else {
        walked(es[0]) + walked_all(es.drop_first())
    }
}

/// The paths among `es` that are neither files nor directories.
pub open spec fn not_found<P>(es: Seq<FsEntry<P>>) -> Seq<P>
    decreases es.len(),
{
    if es.len() == 0 {
        seq![]
    } else {
        match es[0] {
            FsEntry::Other(p) => seq![p] + not_found(es.drop_first()),
            _ => not_found(es.drop_first()),
        }
    }
}

fn walk<P>(entry: FsEntry<P>, files: &mut Vec<P>)
    ensures
        final(files)@ == old(files)@ + walked(entry),
    decreases entry,
{
    match entry {
        FsEntry::File(p) => {
            files.push(p);
        },
        FsEntry::Dir(_, entries) => {
            walk_all(entries, files);
        },
        FsEntry::Other(_) => {
            assert(files@ =~= old(files)@ + Seq::<P>::empty());
        },
    }
}

fn walk_all<P>(entries: Vec<FsEntry<P>>, files: &mut Vec<P>)
    ensures
        final(files)@ == old(files)@ + walked_all(entries@),
    decreases entries,
{
    let ghost es = entries@;
    let ghost start = files@;
    for e in it: entries
        invariant
            it.seq() == es,
            files@ == start + walked_all(es.take(it.index() as int)),
    {
        let ghost i = it.index();
        assert(e == es[i as int]);
        assert(decreases_to!(entries => es[i as int]));
        walk(e, files);
        proof {
            lemma_walked_all_push(es.take(i as int), es[i as int]);
            assert(es.take(i + 1) =~= es.take(i as int).push(es[i as int]));
        }
    }
    assert(es.take(es.len() as int) =~= es);
}

proof fn lemma_walked_all_push<P>(es: Seq<FsEntry<P>>, e: FsEntry<P>)
    ensures
        walked_all(es.push(e)) == walked_all(es) + walked(e),
    decreases es.len(),
{
    if es.len() == 0 {
        assert(es.push(e).drop_first() =~= Seq::<FsEntry<P>>::empty());
        assert(es.push(e)[0] == e);
        assert(walked_all(Seq::<FsEntry<P>>::empty()) =~= Seq::<P>::empty());
        assert(walked_all(es.push(e)) == walked(e) + walked_all(Seq::<FsEntry<P>>::empty()));
        assert(walked(e) + Seq::<P>::empty() =~= walked(e));
        assert(walked_all(es) =~= Seq::<P>::empty());
        assert(Seq::<P>::empty() + walked(e) =~= walked(e));
    } else {
        lemma_walked_all_push(es.drop_first(), e);
        assert(es.push(e).drop_first() =~= es.drop_first().push(e));
        assert(es.push(e)[0] == es[0]);
        assert(walked_all(es.push(e)) == walked(es[0]) + walked_all(es.drop_first().push(e)));
        assert(walked_all(es) == walked(es[0]) + walked_all(es.drop_first()));
        assert(walked_all(es.push(e)) =~= walked_all(es) + walked(e));
    }
}

/// `not_found` of one more entry.
proof fn lemma_not_found_push<P>(es: Seq<FsEntry<P>>, e: FsEntry<P>)
    ensures
        not_found(es.push(e)) == not_found(es) + match e {
            FsEntry::Other(p) => seq![p],
            _ => Seq::<P>::empty(),
        },
    decreases es.len(),
{
    let last = match e {
        FsEntry::Other(p) => seq![p],
        _ => Seq::<P>::empty(),
    };
    if es.len() == 0 {
        assert(es.push(e).drop_first() =~= Seq::<FsEntry<P>>::empty());
        assert(not_found(es) =~= Seq::<P>::empty());
        assert(es.push(e)[0] == e);
        assert(not_found(Seq::<FsEntry<P>>::empty()) =~= Seq::<P>::empty());
        assert(not_found(es.push(e)) =~= last);
        assert(Seq::<P>::empty() + last =~= last);
    } else {
        lemma_not_found_push(es.drop_first(), e);
        assert(es.push(e).drop_first() =~= es.drop_first().push(e));
        assert(es.push(e)[0] == es[0]);
        assert(not_found(es.push(e)) =~= not_found(es) + last);
    }
}

/// The files named by `args`, each a file or a directory walked
/// depth-first, and the arguments that are neither.
pub fn collect_files<P>(args: Vec<FsEntry<P>>) -> (r: (Vec<P>, Vec<P>))
    ensures
        r.0@ == walked_all(args@),
        r.1@ == not_found(args@),
{
    let ghost es = args@;
    let mut files: Vec<P> = Vec::new();
    let mut skipped: Vec<P> = Vec::new();
    for arg in it: args
        invariant
            it.seq() == es,
            files@ == walked_all(es.take(it.index() as int)),
            skipped@ == not_found(es.take(it.index() as int)),
    {
        let ghost i = it.index();
        proof {
            assert(arg == es[i as int]);
            lemma_walked_all_push(es.take(i as int), es[i as int]);
            lemma_not_found_push(es.take(i as int), es[i as int]);
            assert(es.take(i + 1) =~= es.take(i as int).push(es[i as int]));
        }
        match arg {
            FsEntry::Other(p) => {
                assert(files@ =~= files@ + Seq::<P>::empty());
                skipped.push(p);
            },
            other => {
                walk(other, &mut files);
            },
        }
    }
    assert(es.take(es.len() as int) =~= es);
    (files, skipped)
}

/// What to do with a file given the record of it in the store, if any, and
/// its current modification time.
#[derive(Debug, PartialEq, Eq, Structural)]
pub enum IngestPlan {
    /// The stored copy has the same modification time: nothing to do.
    Unchanged,
    /// The file changed: delete the stored document `existing_id`, then
    /// ingest the file.
    Replace { existing_id: i64 },
    /// The file is not stored yet: ingest it.
    Insert,
}

/// The plan for a file whose stored record (id, modification time) is
/// `existing`, and whose modification time is now `mtime`.
pub open spec fn ingest_plan(existing: Option<(i64, i64)>, mtime: i64) -> IngestPlan {
    match existing {
        None => IngestPlan::Insert,
        Some((id, stored)) => if stored == mtime {
            IngestPlan::Unchanged
        } else {
            IngestPlan::Replace { existing_id: id }
        },
    }
}

/// Syncing is idempotent: a file stored with its current modification time
/// is skipped, and one whose time changed replaces its stored document.
pub proof fn resync_skips_unchanged(id: i64, stored: i64, mtime: i64)
    ensures
        ingest_plan(Some((id, mtime)), mtime) == IngestPlan::Unchanged,
        stored != mtime ==> ingest_plan(Some((id, stored)), mtime) == (IngestPlan::Replace {
            existing_id: id,
        }),
{
}

/// A file with no stored record is always ingested; a file is skipped
/// exactly when it is stored with the same modification time; and a
/// replacement deletes the stored document of that file, whose time
/// differs.
pub proof fn new_or_changed_files_are_ingested(existing: Option<(i64, i64)>, mtime: i64)
    ensures
        existing is None ==> ingest_plan(existing, mtime) == IngestPlan::Insert,
        (ingest_plan(existing, mtime) == IngestPlan::Unchanged) == (existing matches Some(
            (_, stored),
        ) && stored == mtime),
        ingest_plan(existing, mtime) matches IngestPlan::Replace { existing_id } ==> (
        existing matches Some((id, stored)) && id == existing_id && stored != mtime),
        ingest_plan(existing, mtime) is Insert ==> existing is None,
{
}

/// Decides whether a file is skipped, re-ingested or ingested.
pub fn plan_ingest(existing: Option<(i64, i64)>, mtime: i64) -> (plan: IngestPlan)
    ensures
        plan == ingest_plan(existing, mtime),
{
    match existing {
        None => IngestPlan::Insert,
        Some((id, stored)) => if stored == mtime {
            IngestPlan::Unchanged
        } else {
            IngestPlan::Replace { existing_id: id }
        },
    }
}

/// The chunks an ingested document is stored as.
pub fn document_chunks(content: &str) -> (chunks: Vec<Chunk>)
    ensures
        chunks_match(chunks@, chunk_contents(content@, CHUNK_SIZE as nat, CHUNK_OVERLAP as nat)),
{
    chunk_text(content, CHUNK_SIZE, CHUNK_OVERLAP)
}

/// The stem (file name without its extension) of `path`, as
/// `std::path::Path::file_stem` finds it, by the path syntax of the target.
pub uninterp spec fn file_stem_of(path: Seq<char>) -> Option<Seq<char>>;

/// `std::path::Path::file_stem` of `path`, as a `String`. Nothing is claimed
/// of the stem but that it is `file_stem_of(path)`: the path grammar that
/// decides it is the standard library's.
#[verifier::external_body]
fn file_stem(path: &str) -> (r: Option<String>)
    ensures
        r matches Some(s) ==> file_stem_of(path@) == Some(s@),
        r is None ==> file_stem_of(path@) is None,
{
    match std::path::Path::new(path).file_stem() {
        Some(stem) => Some(stem.to_string_lossy().into_owned()),
        None => None,
    }
}

/// The title given to a document whose path has the stem `stem`.
pub open spec fn title_for(stem: Option<Seq<char>>) -> Seq<char> {
    match stem {
        Some(s) => s,
        None => seq!['U', 'n', 't', 'i', 't', 'l', 'e', 'd'],
    }
}

/// The title for a path with stem `stem`: the stem, or `Untitled`.
pub fn title_from_stem(stem: Option<String>) -> (title: String)
    ensures
        title@ == title_for(
            match stem {
                Some(s) => Some(s@),
                None => None,
            },
        ),
{
    match stem {
        Some(s) => s,
        None => {
            let t = String::from_str("Untitled");
            proof {
                reveal_strlit("Untitled");
            }
            t
        },
    }
}

/// The title of the document at `path`: its file stem, or `Untitled` if
/// it has none.
pub fn title_from_path(path: &str) -> (title: String)
    ensures
        title@ == title_for(file_stem_of(path@)),
{
    title_from_stem(file_stem(path))
}

/// Collecting from a list of paths collects from each part of the list in
/// turn.
pub proof fn collecting_goes_path_by_path<P>(a: Seq<FsEntry<P>>, b: Seq<FsEntry<P>>)
    ensures
        walked_all(a + b) == walked_all(a) + walked_all(b),
        not_found(a + b) == not_found(a) + not_found(b),
    decreases b.len(),
{
    if b.len() == 0 {
        assert(a + b =~= a);
        assert(walked_all(b) =~= Seq::<P>::empty());
        assert(not_found(b) =~= Seq::<P>::empty());
        assert(walked_all(a) + walked_all(b) =~= walked_all(a));
        assert(not_found(a) + not_found(b) =~= not_found(a));
    } else {
        let b2 = b.drop_last();
        let e = b.last();
        collecting_goes_path_by_path(a, b2);
        assert(b =~= b2.push(e));
        assert(a + b =~= (a + b2).push(e));
        lemma_walked_all_push(a + b2, e);
        lemma_walked_all_push(b2, e);
        lemma_not_found_push(a + b2, e);
        lemma_not_found_push(b2, e);
        assert(walked_all(a + b) =~= walked_all(a) + walked_all(b));
        assert(not_found(a + b) =~= not_found(a) + not_found(b));
    }
}

/// A file path gives itself; a directory gives the files found in its
/// entries, in their order, and is not reported; anything else gives no
/// file and is reported.
pub proof fn collecting_one_path<P>(p: P, entries: Vec<FsEntry<P>>)
    ensures
        walked_all(seq![FsEntry::File(p)]) == seq![p],
        not_found(seq![FsEntry::File(p)]) == Seq::<P>::empty(),
        walked_all(seq![FsEntry::Dir(p, entries)]) == walked_all(entries@),
        not_found(seq![FsEntry::Dir(p, entries)]) == Seq::<P>::empty(),
        walked_all(seq![FsEntry::<P>::Other(p)]) == Seq::<P>::empty(),
        not_found(seq![FsEntry::<P>::Other(p)]) == seq![p],
{
    let empty = Seq::<FsEntry<P>>::empty();
    lemma_walked_all_push(empty, FsEntry::File(p));
    lemma_walked_all_push(empty, FsEntry::Dir(p, entries));
    lemma_walked_all_push(empty, FsEntry::<P>::Other(p));
    lemma_not_found_push(empty, FsEntry::File(p));
    lemma_not_found_push(empty, FsEntry::Dir(p, entries));
    lemma_not_found_push(empty, FsEntry::<P>::Other(p));
    assert(empty.push(FsEntry::File(p)) =~= seq![FsEntry::File(p)]);
    assert(empty.push(FsEntry::Dir(p, entries)) =~= seq![FsEntry::Dir(p, entries)]);
    assert(empty.push(FsEntry::<P>::Other(p)) =~= seq![FsEntry::<P>::Other(p)]);
    assert(walked_all(empty) =~= Seq::<P>::empty());
    assert(not_found(empty) =~= Seq::<P>::empty());
    assert(Seq::<P>::empty() + seq![p] =~= seq![p]);
    assert(Seq::<P>::empty() + walked_all(entries@) =~= walked_all(entries@));
    assert(Seq::<P>::empty() + Seq::<P>::empty() =~= Seq::<P>::empty());
}

/// A document's title is its path's file stem, or `Untitled` when the path
/// has none.
pub proof fn title_is_the_file_stem(path: Seq<char>)
    ensures
        file_stem_of(path) matches Some(stem) ==> title_for(file_stem_of(path)) == stem,
        file_stem_of(path) is None ==> title_for(file_stem_of(path)) == seq![
            'U',
            'n',
            't',
            'i',
            't',
            'l',
            'e',
            'd',
        ],
{
}

} // verus!
