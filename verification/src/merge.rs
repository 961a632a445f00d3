//! The read-merge-write computation: from the loaded record set and the
//! current invocation, compute the new record set.
//!
//! Starting from the loaded set, every record whose directory equals the
//! current directory and whose file is among the files of this invocation is
//! discarded (its argument list is stale), and one fresh record per file is
//! inserted, all carrying the same directory and argument list.

use vstd::prelude::*;
use crate::order::{str_lt, lemma_str_lt_trichotomy};
use crate::record::{Record, RecordModel, strs_view};
use crate::db::Database;

verus! {

/// A record of this set is superseded by the current invocation.
pub open spec fn targeted(m: RecordModel, d: Seq<char>, files: Set<Seq<char>>) -> bool {
    m.directory == d && files.contains(m.file)
}

/// The fresh records of one invocation: one per file, all with the same
/// directory and argument list.
pub open spec fn fresh_records(d: Seq<char>, args: Seq<Seq<char>>, files: Set<Seq<char>>) -> Set<
    RecordModel,
> {
    Set::new(|m: RecordModel| m.directory == d && m.arguments == args && files.contains(m.file))
}

/// The merged record set of one invocation.
pub open spec fn merged(
    s: Set<RecordModel>,
    d: Seq<char>,
    args: Seq<Seq<char>>,
    files: Set<Seq<char>>,
) -> Set<RecordModel> {
    s.filter(|m: RecordModel| !targeted(m, d, files)).union(fresh_records(d, args, files))
}

/// How many records of `s` survive the invocation.
pub open spec fn kept_count(s: Seq<RecordModel>, d: Seq<char>, files: Set<Seq<char>>) -> int
    decreases s.len(),
{
    if s.len() == 0 {
        0
    } else {
        kept_count(s.drop_last(), d, files) + if targeted(s.last(), d, files) {
            0int
        } else {
            1int
        }
    }
}

/// Strictly sorted list of strings (a set of file names in canonical form).
pub open spec fn sorted_strs(fs: Seq<Seq<char>>) -> bool {
    forall|i: int, j: int| 0 <= i < j < fs.len() ==> str_lt(fs[i], fs[j])
}

/// If nothing in `s` is superseded, everything is kept.
pub proof fn lemma_kept_count_untargeted(s: Seq<RecordModel>, d: Seq<char>, files: Set<Seq<char>>)
    requires
        forall|i: int| 0 <= i < s.len() ==> !targeted(#[trigger] s[i], d, files),
    ensures
        kept_count(s, d, files) == s.len(),
    decreases s.len(),
{
    if s.len() > 0 {
        assert(s.last() == s[s.len() - 1]);
        assert forall|i: int| 0 <= i < s.drop_last().len() implies !targeted(
            #[trigger] s.drop_last()[i],
            d,
            files,
        ) by {
            assert(s.drop_last()[i] == s[i]);
        }
        lemma_kept_count_untargeted(s.drop_last(), d, files);
    }
}

/// Membership test against a list of strings.
fn contains_string(v: &Vec<String>, name: &String) -> (r: bool)
    ensures
        r == strs_view(v@).to_set().contains(name@),
{
    let n = v.len();
    let mut i: usize = 0;
    while i < n
        invariant
            i <= n,
            n == v@.len(),
            forall|j: int| 0 <= j < i ==> v@[j]@ != name@,
        ensures
            i <= n,
            forall|j: int| 0 <= j < i ==> v@[j]@ != name@,
            i < n ==> v@[i as int]@ == name@,
        decreases n - i,
    {
        if v[i] == *name {
            break;
        }
        i = i + 1;
    }
    if i < n {
        proof {
            assert(strs_view(v@)[i as int] == v@[i as int]@);
            assert(strs_view(v@).contains(name@));
        }
        true
    } else {
        proof {
            if strs_view(v@).to_set().contains(name@) {
                let k = choose|k: int| 0 <= k < v@.len() && strs_view(v@)[k] == name@;
                assert(v@[k]@ == name@);
            }
        }
        false
    }
}

/// Compute the merged database of one invocation.
pub fn merge(old_db: &Database, directory: &String, arguments: &Vec<String>, files: &Vec<String>) -> (r:
    Database)
    requires
        old_db.wf(),
        sorted_strs(strs_view(files@)),
    ensures
        r.wf(),
        r.model() == merged(
            old_db.model(),
            directory@,
            strs_view(arguments@),
            strs_view(files@).to_set(),
        ),
        r.seq_model().len() == kept_count(
            old_db.seq_model(),
            directory@,
            strs_view(files@).to_set(),
        ) + files@.len(),
{
    let ghost d = directory@;
    let ghost args = strs_view(arguments@);
    let ghost fv = strs_view(files@);
    let ghost fs = fv.to_set();
    let ghost pre = old_db.seq_model();

    // Keep the records this invocation does not supersede.
    let mut out = Database::empty();
    let n = old_db.records.len();
    let mut i: usize = 0;
    while i < n
        invariant
            i <= n,
            n == pre.len(),
            pre == old_db.seq_model(),
            old_db.wf(),
            d == directory@,
            args == strs_view(arguments@),
            fv == strs_view(files@),
            fs == fv.to_set(),
            out.wf(),
            out.model() == pre.take(i as int).to_set().filter(
                |m: RecordModel| !targeted(m, d, fs),
            ),
            out.seq_model().len() == kept_count(pre.take(i as int), d, fs),
            forall|p: int, k: int|
                0 <= p < out.seq_model().len() && i <= k < n ==> crate::record::rec_lt(
                    #[trigger] out.seq_model()[p],
                    #[trigger] pre[k],
                ),
        decreases n - i,
    {
        let rec = &old_db.records[i];
        proof {
            assert(rec@ == pre[i as int]);
        }
        let is_targeted = rec.directory == *directory && contains_string(files, &rec.file);
        let ghost oldout = out.seq_model();
        if !is_targeted {
            let kept = Record::new(&rec.directory, &rec.file, &rec.arguments);
            proof {
                assert(kept@ =~= rec@);
            }
            out.records.push(kept);
            proof {
                assert(out.seq_model() =~= oldout.push(pre[i as int])) by {
                    assert forall|q: int| 0 <= q < out.seq_model().len() implies out.seq_model()[q]
                        == oldout.push(pre[i as int])[q] by {
                        assert(out.seq_model()[q] == out.records@[q]@);
                    }
                }
            }
        }
        proof {
            let prev = pre.take(i as int);
            let cur = pre.take(i + 1);
            assert(cur.drop_last() =~= prev);
            assert(cur.last() == pre[i as int]);
            if is_targeted {
                assert(targeted(pre[i as int], d, fs));
                assert(out.model() =~= cur.to_set().filter(|m: RecordModel| !targeted(m, d, fs)))
                    by {
                    assert forall|m: RecordModel|
                        cur.to_set().filter(|m: RecordModel| !targeted(m, d, fs)).contains(
                            m,
                        ) implies out.model().contains(m) by {
                        let k = choose|k: int| 0 <= k < cur.len() && cur[k] == m;
                        if k < i {
                            assert(prev[k] == m);
                            assert(prev.contains(m));
                        } else {
                            assert(m == pre[i as int]);
                        }
                    }
                    assert forall|m: RecordModel| out.model().contains(m) implies cur.to_set()
                        .filter(|m: RecordModel| !targeted(m, d, fs)).contains(m) by {
                        assert(prev.to_set().contains(m));
                        let k = choose|k: int| 0 <= k < prev.len() && prev[k] == m;
                        assert(cur[k] == m);
                        assert(cur.contains(m));
                    }
                }
            } else {
                assert(!targeted(pre[i as int], d, fs));
                assert(out.model() =~= cur.to_set().filter(|m: RecordModel| !targeted(m, d, fs)))
                    by {
                    assert forall|m: RecordModel|
                        cur.to_set().filter(|m: RecordModel| !targeted(m, d, fs)).contains(
                            m,
                        ) implies out.model().contains(m) by {
                        let k = choose|k: int| 0 <= k < cur.len() && cur[k] == m;
                        if k < i {
                            assert(prev[k] == m);
                            assert(prev.contains(m));
                            assert(oldout.to_set().contains(m));
                            let q = choose|q: int| 0 <= q < oldout.len() && oldout[q] == m;
                            assert(out.seq_model()[q] == m);
                            assert(out.seq_model().contains(m));
                        } else {
                            assert(m == pre[i as int]);
                            assert(out.seq_model().last() == m);
                            assert(out.seq_model().contains(m));
                        }
                    }
                    assert forall|m: RecordModel| out.model().contains(m) implies cur.to_set()
                        .filter(|m: RecordModel| !targeted(m, d, fs)).contains(m) by {
                        let q = choose|q: int|
                            0 <= q < out.seq_model().len() && out.seq_model()[q] == m;
                        if q < oldout.len() {
                            assert(oldout[q] == m);
                            assert(oldout.contains(m));
                            assert(oldout.to_set().contains(m));
                            assert(prev.to_set().contains(m));
                            let k = choose|k: int| 0 <= k < prev.len() && prev[k] == m;
                            assert(cur[k] == m);
                            assert(cur.contains(m));
                        } else {
                            assert(m == pre[i as int]);
                            assert(cur.last() == m);
                            assert(cur.contains(m));
                        }
                    }
                }
            }
        }
        i = i + 1;
    }
    proof {
        assert(pre.take(n as int) =~= pre);
    }
    let ghost base = out.model();
    let ghost base_len = out.seq_model().len();

    // Insert one fresh record per file of this invocation.
    let fn_count = files.len();
    let mut j: usize = 0;
    while j < fn_count
        invariant
            j <= fn_count,
            fn_count == files@.len(),
            d == directory@,
            args == strs_view(arguments@),
            fv == strs_view(files@),
            fs == fv.to_set(),
            sorted_strs(fv),
            out.wf(),
            base == pre.to_set().filter(|m: RecordModel| !targeted(m, d, fs)),
            base_len == kept_count(pre, d, fs),
            out.model() == base.union(fresh_records(d, args, fv.take(j as int).to_set())),
            out.seq_model().len() == base_len + j,
        decreases fn_count - j,
    {
        let rec = Record::new(directory, &files[j], arguments);
        proof {
            assert(fv[j as int] == files@[j as int]@);
            assert(fv.contains(fv[j as int]));
            assert(fs.contains(fv[j as int]));
            assert(targeted(rec@, d, fs));
            // The fresh record is not yet present.
            if out.model().contains(rec@) {
                if base.contains(rec@) {
                    assert(false);
                } else {
                    assert(fresh_records(d, args, fv.take(j as int).to_set()).contains(rec@));
                    let k = choose|k: int|
                        0 <= k < fv.take(j as int).len() && fv.take(j as int)[k] == rec@.file;
                    assert(fv[k] == fv[j as int]);
                    assert(str_lt(fv[k], fv[j as int]));
                    lemma_str_lt_trichotomy(fv[k], fv[j as int]);
                    assert(false);
                }
            }
        }
        let ghost before = out.model();
        out.insert(rec);
        proof {
            assert(out.model() =~= base.union(fresh_records(d, args, fv.take(j + 1).to_set())))
                by {
                assert forall|m: RecordModel| out.model().contains(m) implies base.union(
                    fresh_records(d, args, fv.take(j + 1).to_set()),
                ).contains(m) by {
                    if m == rec@ {
                        assert(fv.take(j + 1)[j as int] == fv[j as int]);
                        assert(fv.take(j + 1).contains(fv[j as int]));
                        assert(fresh_records(d, args, fv.take(j + 1).to_set()).contains(m));
                    } else {
                        assert(before.contains(m));
                        if !base.contains(m) {
                            assert(fresh_records(d, args, fv.take(j as int).to_set()).contains(m));
                            let k = choose|k: int|
                                0 <= k < fv.take(j as int).len() && fv.take(j as int)[k] == m.file;
                            assert(fv.take(j + 1)[k] == m.file);
                            assert(fv.take(j + 1).contains(m.file));
                        }
                    }
                }
                assert forall|m: RecordModel| base.union(
                    fresh_records(d, args, fv.take(j + 1).to_set()),
                ).contains(m) implies out.model().contains(m) by {
                    if base.contains(m) {
                        assert(before.contains(m));
                    } else {
                        assert(fresh_records(d, args, fv.take(j + 1).to_set()).contains(m));
                        let k = choose|k: int|
                            0 <= k < fv.take(j + 1).len() && #[trigger] fv.take(j + 1)[k]
                                == m.file;
                        assert(fv.take(j + 1)[k] == fv[k]);
                        if k < j {
                            assert(fv.take(j as int)[k] == m.file);
                            assert(fv.take(j as int).contains(m.file));
                            assert(fresh_records(d, args, fv.take(j as int).to_set()).contains(m));
                            assert(before.contains(m));
                        } else {
                            assert(m.file == fv[j as int]);
                            assert(m =~= rec@);
                        }
                    }
                }
            }
        }
        j = j + 1;
    }
    proof {
        assert(fv.take(fn_count as int) =~= fv);
        assert(out.model() =~= merged(old_db.model(), d, args, fs)) by {
            assert(out.model() == base.union(fresh_records(d, args, fs)));
        }
    }
    out
}

/// Repeating an invocation changes nothing: the merged set is a fixed point.
pub proof fn lemma_merge_idempotent(
    s: Set<RecordModel>,
    d: Seq<char>,
    args: Seq<Seq<char>>,
    files: Set<Seq<char>>,
)
    ensures
        merged(merged(s, d, args, files), d, args, files) == merged(s, d, args, files),
{
    let m1 = merged(s, d, args, files);
    assert(merged(m1, d, args, files) =~= m1);
}

/// A later invocation for the same directory and files supersedes an earlier
/// one: only the latest argument list survives, with exactly one record per
/// (directory, file) key.
pub proof fn lemma_supersession(
    s: Set<RecordModel>,
    d: Seq<char>,
    args1: Seq<Seq<char>>,
    args2: Seq<Seq<char>>,
    files: Set<Seq<char>>,
)
    ensures
        merged(merged(s, d, args1, files), d, args2, files) == merged(s, d, args2, files),
        forall|m: RecordModel|
            merged(s, d, args2, files).contains(m) && targeted(m, d, files) ==> m.arguments
                == args2,
        forall|m1: RecordModel, m2: RecordModel|
            merged(s, d, args2, files).contains(m1) && merged(s, d, args2, files).contains(m2)
                && targeted(m1, d, files) && targeted(m2, d, files) && m1.file == m2.file ==> m1
                == m2,
{
    assert(merged(merged(s, d, args1, files), d, args2, files) =~= merged(s, d, args2, files));
    assert forall|m1: RecordModel, m2: RecordModel|
        merged(s, d, args2, files).contains(m1) && merged(s, d, args2, files).contains(m2)
            && targeted(m1, d, files) && targeted(m2, d, files) && m1.file == m2.file implies m1
        == m2 by {
        assert(m1 =~= m2);
    }
}

/// Records this invocation does not supersede are untouched: records of
/// other directories, and of files not named here, survive exactly as they
/// were.
pub proof fn lemma_untargeted_preserved(
    s: Set<RecordModel>,
    d: Seq<char>,
    args: Seq<Seq<char>>,
    files: Set<Seq<char>>,
    m: RecordModel,
)
    requires
        !targeted(m, d, files),
    ensures
        merged(s, d, args, files).contains(m) == s.contains(m),
{
}

/// Invocations with disjoint (directory, file) keys commute: whichever
/// serial order the lock grants, the final record set is the same.
pub proof fn lemma_merge_commutes(
    s: Set<RecordModel>,
    d1: Seq<char>,
    args1: Seq<Seq<char>>,
    files1: Set<Seq<char>>,
    d2: Seq<char>,
    args2: Seq<Seq<char>>,
    files2: Set<Seq<char>>,
)
    requires
        d1 != d2 || forall|f: Seq<char>| !(files1.contains(f) && files2.contains(f)),
    ensures
        merged(merged(s, d1, args1, files1), d2, args2, files2) == merged(
            merged(s, d2, args2, files2),
            d1,
            args1,
            files1,
        ),
{
    assert(merged(merged(s, d1, args1, files1), d2, args2, files2) =~= merged(
        merged(s, d2, args2, files2),
        d1,
        args1,
        files1,
    ));
}

} // verus!
