//! The synchronization engine's decision: from the database file content
//! and the current invocation, decide whether the file must be rewritten,
//! and with what.
//!
//! The caller holds the exclusive cross-process lock on the file for the
//! whole read-merge-write sequence: it reads the entire content, calls
//! [`plan_update`], and either leaves the file untouched or replaces its
//! content with the returned text.

use vstd::prelude::*;
use vstd::string::StrSliceExecFns;
use crate::record::{RecordModel, strs_view};
use crate::db::{Database, sorted_strict, lemma_canonical_unique};
use crate::merge::{merge, merged, sorted_strs, fresh_records, lemma_merge_idempotent};
use crate::codec::{to_text, from_text, ser_db, loaded, lemma_round_trip, ParseError};

verus! {

/// A character a blank database file may hold.
pub open spec fn is_blank_char(c: char) -> bool {
    c == ' ' || c == '\t' || c == '\n' || c == '\r'
}

/// Blank content stands for the empty record set.
pub open spec fn blank(t: Seq<char>) -> bool {
    forall|i: int| 0 <= i < t.len() ==> is_blank_char(#[trigger] t[i])
}

/// The record set a database file content denotes: the empty set for blank
/// content, otherwise exactly a canonical serialization, or nothing.
pub open spec fn content_records(t: Seq<char>) -> Option<Seq<RecordModel>> {
    if blank(t) {
        Some(Seq::empty())
    } else {
        loaded(t)
    }
}

/// What one invocation decides to do with the database file.
pub enum SyncAction {
    /// The merged set equals the loaded set: the file is left untouched.
    Unchanged,
    /// The file content is replaced by exactly this text.
    Write(String),
}

/// Whether the content is empty or whitespace only.
fn is_blank_text(s: &str) -> (r: bool)
    ensures
        r == blank(s@),
{
    let n = s.unicode_len();
    let mut i: usize = 0;
    while i < n
        invariant
            i <= n,
            n == s@.len(),
            forall|j: int| 0 <= j < i ==> is_blank_char(#[trigger] s@[j]),
        ensures
            i <= n,
            forall|j: int| 0 <= j < i ==> is_blank_char(#[trigger] s@[j]),
            i < n ==> !is_blank_char(s@[i as int]),
        decreases n - i,
    {
        let c = s.get_char(i);
        if !(c == ' ' || c == '\t' || c == '\n' || c == '\r') {
            break;
        }
        i = i + 1;
    }
    i == n
}

/// Decide the outcome of one invocation.
///
/// `content` is the entire database file as read under the lock; `files`
/// is the set of source files of this invocation, in canonical order (as
/// [`crate::shim::source_files`] returns it).  On success the caller either
/// leaves the file untouched, or truncates it and writes the returned text;
/// on a parse failure the file is left exactly as it was.
pub fn plan_update(
    content: &str,
    directory: &String,
    arguments: &Vec<String>,
    files: &Vec<String>,
) -> (r: Result<SyncAction, ParseError>)
    requires
        sorted_strs(strs_view(files@)),
    ensures
        (r is Ok) == (content_records(content@) is Some),
        r is Ok ==> ({
            let rs = content_records(content@)->Some_0;
            let m = merged(
                rs.to_set(),
                directory@,
                strs_view(arguments@),
                strs_view(files@).to_set(),
            );
            match r->Ok_0 {
                SyncAction::Unchanged => m == rs.to_set(),
                SyncAction::Write(s) => m != rs.to_set() && (exists|nrs: Seq<RecordModel>|
                    sorted_strict(nrs) && nrs.to_set() == m && s@ == ser_db(nrs)),
            }
        }),
{
    let old_db: Database;
    if is_blank_text(content) {
        old_db = Database::empty();
    } else {
        match from_text(content) {
            Ok(db) => {
                old_db = db;
            },
            Err(e) => {
                return Err(e);
            },
        }
    }
    let ghost rs = content_records(content@)->Some_0;
    proof {
        assert(old_db.seq_model() == rs);
    }
    let new_db = merge(&old_db, directory, arguments, files);
    if new_db.same_records(&old_db) {
        proof {
            assert(new_db.model() == old_db.model());
        }
        Ok(SyncAction::Unchanged)
    } else {
        proof {
            if new_db.model() == old_db.model() {
                lemma_canonical_unique(new_db.seq_model(), old_db.seq_model());
            }
        }
        let text = to_text(&new_db);
        proof {
            let nrs = new_db.seq_model();
            assert(sorted_strict(nrs) && nrs.to_set() == merged(
                rs.to_set(),
                directory@,
                strs_view(arguments@),
                strs_view(files@).to_set(),
            ) && text@ == ser_db(nrs));
        }
        Ok(SyncAction::Write(text))
    }
}

/// Idempotence: what one invocation writes, the same invocation loads back
/// unchanged, and merging it again is a fixed point — so the second run
/// plans no write and the file stays byte-identical.
pub proof fn lemma_sync_idempotent(
    s: Set<RecordModel>,
    nrs: Seq<RecordModel>,
    d: Seq<char>,
    args: Seq<Seq<char>>,
    files: Set<Seq<char>>,
)
    requires
        sorted_strict(nrs),
        nrs.to_set() == merged(s, d, args, files),
    ensures
        content_records(ser_db(nrs)) == Some(nrs),
        merged(nrs.to_set(), d, args, files) == nrs.to_set(),
{
    lemma_round_trip(nrs);
    assert(!blank(ser_db(nrs))) by {
        reveal_strlit("[]\n");
        reveal_strlit("[\n");
        assert(ser_db(nrs)[0] == '[');
        assert(!is_blank_char('['));
    }
    lemma_merge_idempotent(s, d, args, files);
}

/// Fresh database bootstrap: a file that does not exist yet is read as
/// empty content, which denotes the empty record set, and the invocation's
/// merge then holds exactly its own fresh records.
pub proof fn lemma_bootstrap(d: Seq<char>, args: Seq<Seq<char>>, files: Set<Seq<char>>)
    ensures
        content_records(Seq::<char>::empty()) == Some(Seq::<RecordModel>::empty()),
        merged(Set::<RecordModel>::empty(), d, args, files) == fresh_records(d, args, files),
{
    assert(blank(Seq::<char>::empty()));
    assert(merged(Set::<RecordModel>::empty(), d, args, files) =~= fresh_records(d, args, files));
}

} // verus!
