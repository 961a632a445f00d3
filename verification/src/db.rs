//! The in-memory database: a canonical (strictly sorted, duplicate-free)
//! collection of records.
//!
//! The persisted file is the serialization of this canonical form, so equal
//! record sets always serialize to identical bytes, and an unchanged merge
//! can be detected by comparing canonical forms.

use vstd::prelude::*;
use crate::record::{
    Record, RecordModel, Rank, rec_lt, rec_compare, lemma_rec_lt_trichotomy, lemma_rec_lt_transitive,
};

verus! {

/// A sequence of record values in strictly increasing database order.
pub open spec fn sorted_strict(s: Seq<RecordModel>) -> bool {
    forall|i: int, j: int| 0 <= i < j < s.len() ==> rec_lt(s[i], s[j])
}

/// The mathematical values of a list of records.
pub open spec fn rec_views(rs: Seq<Record>) -> Seq<RecordModel> {
    rs.map_values(|r: Record| r@)
}

/// The transient record collection one invocation works on.
pub struct Database {
    /// The records, kept in strictly increasing database order.
    pub records: Vec<Record>,
}

impl Database {
    /// The records as a sequence of mathematical values.
    pub open spec fn seq_model(self) -> Seq<RecordModel> {
        rec_views(self.records@)
    }

    /// The record set this database represents.
    pub open spec fn model(self) -> Set<RecordModel> {
        self.seq_model().to_set()
    }

    /// Well-formed: canonical order, hence no duplicates.
    pub open spec fn wf(self) -> bool {
        sorted_strict(self.seq_model())
    }

    /// The empty database.
    pub fn empty() -> (r: Database)
        ensures
            r.wf(),
            r.seq_model() == Seq::<RecordModel>::empty(),
            r.model() == Set::<RecordModel>::empty(),
    {
        let r = Database { records: Vec::new() };
        proof {
            assert(r.seq_model() =~= Seq::<RecordModel>::empty());
            assert(r.model() =~= Set::<RecordModel>::empty());
        }
        r
    }

    /// Number of records.
    pub fn len(&self) -> (n: usize)
        ensures
            n == self.seq_model().len(),
    {
        self.records.len()
    }

    /// Insert a record, keeping the canonical order.  A record already
    /// present (same directory, file and arguments) is not duplicated.
    pub fn insert(&mut self, rec: Record)
        requires
            old(self).wf(),
        ensures
            final(self).wf(),
            final(self).model() == old(self).model().insert(rec@),
            final(self).seq_model().len() == old(self).seq_model().len() + (
            if old(self).model().contains(rec@) {
                0int
            } else {
                1int
            }),
    {
        let ghost pre = self.seq_model();
        let n = self.records.len();
        let mut idx: usize = 0;
        let mut present: bool = false;
        while idx < n
            invariant_except_break
                !present,
            invariant
                idx <= n,
                n == pre.len(),
                self.seq_model() == pre,
                forall|j: int| 0 <= j < idx ==> rec_lt(pre[j], rec@),
                present ==> idx < n && pre[idx as int] == rec@,
            ensures
                idx <= n,
                self.seq_model() == pre,
                forall|j: int| 0 <= j < idx ==> rec_lt(pre[j], rec@),
                present ==> idx < n && pre[idx as int] == rec@,
                !present && idx < n ==> rec_lt(rec@, pre[idx as int]),
            decreases n - idx,
        {
            let c = rec_compare(&self.records[idx], &rec);
            if matches!(c, Rank::Equal) {
                present = true;
                break;
            }
            if matches!(c, Rank::Greater) {
                break;
            }
            idx = idx + 1;
        }
        if present {
            proof {
                assert(pre.contains(rec@));
                assert(self.model().contains(rec@));
                assert(self.model() =~= self.model().insert(rec@));
            }
        } else {
            proof {
                // rec@ is not yet in the database: everything before idx is
                // smaller, everything from idx on is larger.
                assert forall|j: int| 0 <= j < pre.len() implies pre[j] != rec@ by {
                    lemma_rec_lt_trichotomy(pre[j], rec@);
                    lemma_rec_lt_trichotomy(rec@, pre[j]);
                    if j > idx {
                        assert(rec_lt(pre[idx as int], pre[j]));
                        lemma_rec_lt_transitive(rec@, pre[idx as int], pre[j]);
                    }
                }
                assert(!pre.contains(rec@));
                assert(!old(self).model().contains(rec@));
            }
            self.records.insert(idx, rec);
            proof {
                let post = self.seq_model();
                assert(post =~= pre.insert(idx as int, rec@)) by {
                    assert forall|j: int| 0 <= j < post.len() implies post[j] == pre.insert(
                        idx as int,
                        rec@,
                    )[j] by {
                        assert(post[j] == self.records@[j]@);
                    }
                }
                assert forall|i: int, j: int| 0 <= i < j < post.len() implies rec_lt(
                    post[i],
                    post[j],
                ) by {
                    let pi = if i < idx {
                        pre[i]
                    } else if i == idx {
                        rec@
                    } else {
                        pre[i - 1]
                    };
                    let pj = if j < idx {
                        pre[j]
                    } else if j == idx {
                        rec@
                    } else {
                        pre[j - 1]
                    };
                    assert(post[i] == pi);
                    assert(post[j] == pj);
                    if i < idx && j == idx {
                        assert(rec_lt(pre[i], rec@));
                    } else if i == idx && j > idx {
                        if idx < pre.len() {
                            if j - 1 > idx {
                                lemma_rec_lt_transitive(rec@, pre[idx as int], pre[j - 1]);
                            }
                        }
                    } else if i < idx && j > idx {
                        assert(rec_lt(pre[i], pre[j - 1]));
                    }
                }
                assert(self.model() =~= old(self).model().insert(rec@)) by {
                    assert forall|m: RecordModel| self.model().contains(m) implies old(
                        self,
                    ).model().insert(rec@).contains(m) by {
                        let k = choose|k: int| 0 <= k < post.len() && post[k] == m;
                        if k < idx {
                            assert(pre[k] == m);
                            assert(pre.contains(m));
                        } else if k > idx {
                            assert(pre[k - 1] == m);
                            assert(pre.contains(m));
                        }
                    }
                    assert forall|m: RecordModel| old(self).model().insert(rec@).contains(
                        m,
                    ) implies self.model().contains(m) by {
                        if m == rec@ {
                            assert(post[idx as int] == m);
                            assert(post.contains(m));
                        } else {
                            let k = choose|k: int| 0 <= k < pre.len() && pre[k] == m;
                            if k < idx {
                                assert(post[k] == m);
                            } else {
                                assert(post[k + 1] == m);
                            }
                            assert(post.contains(m));
                        }
                    }
                }
            }
        }
    }

    /// Whether two databases hold exactly the same records in the same order.
    pub fn same_records(&self, other: &Database) -> (r: bool)
        ensures
            r == (self.seq_model() == other.seq_model()),
    {
        let n = self.records.len();
        if n != other.records.len() {
            proof {
                assert(self.seq_model().len() != other.seq_model().len());
            }
            return false;
        }
        let mut i: usize = 0;
        while i < n
            invariant
                i <= n,
                n == self.seq_model().len(),
                n == other.seq_model().len(),
                forall|j: int| 0 <= j < i ==> self.seq_model()[j] == other.seq_model()[j],
            ensures
                i <= n,
                forall|j: int| 0 <= j < i ==> self.seq_model()[j] == other.seq_model()[j],
                i < n ==> self.seq_model()[i as int] != other.seq_model()[i as int],
            decreases n - i,
        {
            let c = rec_compare(&self.records[i], &other.records[i]);
            if !matches!(c, Rank::Equal) {
                proof {
                    assert(self.seq_model()[i as int] == self.records@[i as int]@);
                    assert(other.seq_model()[i as int] == other.records@[i as int]@);
                }
                break;
            }
            proof {
                assert(self.seq_model()[i as int] == self.records@[i as int]@);
                assert(other.seq_model()[i as int] == other.records@[i as int]@);
            }
            i = i + 1;
        }
        if i == n {
            proof {
                assert(self.seq_model() =~= other.seq_model());
            }
            true
        } else {
            false
        }
    }
}

/// Two canonical databases with the same record set hold the same sequence:
/// the canonical form is unique.
pub proof fn lemma_canonical_unique(a: Seq<RecordModel>, b: Seq<RecordModel>)
    requires
        sorted_strict(a),
        sorted_strict(b),
        a.to_set() == b.to_set(),
    ensures
        a == b,
    decreases a.len(),
{
    if a.len() == 0 {
        if b.len() > 0 {
            assert(b.contains(b[0]));
            assert(b.to_set().contains(b[0]));
            assert(a.to_set().contains(b[0]));
            assert(a.contains(b[0]));
            assert(false);
        }
        assert(a =~= b);
    } else if b.len() == 0 {
        assert(a.contains(a[0]));
        assert(a.to_set().contains(a[0]));
        assert(b.to_set().contains(a[0]));
        assert(b.contains(a[0]));
        assert(false);
    } else {
        // The heads are both the least element of the common set.
        assert(a.contains(a[0]));
        assert(b.to_set().contains(a[0]));
        assert(b.contains(a[0]));
        let k = choose|k: int| 0 <= k < b.len() && b[k] == a[0];
        assert(b.contains(b[0]));
        assert(a.to_set().contains(b[0]));
        assert(a.contains(b[0]));
        let l = choose|l: int| 0 <= l < a.len() && a[l] == b[0];
        if k > 0 && l > 0 {
            assert(rec_lt(b[0], b[k]));
            assert(rec_lt(a[0], a[l]));
            lemma_rec_lt_trichotomy(a[0], b[0]);
            assert(false);
        }
        assert(a[0] == b[0]);
        let a1 = a.drop_first();
        let b1 = b.drop_first();
        assert forall|i: int, j: int| 0 <= i < j < a1.len() implies rec_lt(a1[i], a1[j]) by {
            assert(a1[i] == a[i + 1]);
            assert(a1[j] == a[j + 1]);
        }
        assert forall|i: int, j: int| 0 <= i < j < b1.len() implies rec_lt(b1[i], b1[j]) by {
            assert(b1[i] == b[i + 1]);
            assert(b1[j] == b[j + 1]);
        }
        assert(a1.to_set() =~= b1.to_set()) by {
            assert forall|m: RecordModel| a1.to_set().contains(m) implies b1.to_set().contains(
                m,
            ) by {
                let p = choose|p: int| 0 <= p < a1.len() && a1[p] == m;
                assert(a1[p] == a[p + 1]);
                assert(rec_lt(a[0], m));
                assert(a.contains(m));
                assert(a.to_set().contains(m));
                assert(b.to_set().contains(m));
                assert(b.contains(m));
                let q = choose|q: int| 0 <= q < b.len() && b[q] == m;
                lemma_rec_lt_trichotomy(b[0], m);
                assert(q != 0);
                assert(b1[q - 1] == m);
                assert(b1.contains(m));
            }
            assert forall|m: RecordModel| b1.to_set().contains(m) implies a1.to_set().contains(
                m,
            ) by {
                let p = choose|p: int| 0 <= p < b1.len() && b1[p] == m;
                assert(b1[p] == b[p + 1]);
                assert(rec_lt(b[0], m));
                assert(b.contains(m));
                assert(b.to_set().contains(m));
                assert(a.to_set().contains(m));
                assert(a.contains(m));
                let q = choose|q: int| 0 <= q < a.len() && a[q] == m;
                lemma_rec_lt_trichotomy(a[0], m);
                assert(q != 0);
                assert(a1[q - 1] == m);
                assert(a1.contains(m));
            }
        }
        lemma_canonical_unique(a1, b1);
        assert forall|i: int| 0 <= i < a.len() implies a[i] == b[i] by {
            if i > 0 {
                assert(a[i] == a1[i - 1]);
                assert(b[i] == b1[i - 1]);
            }
        }
        assert(a =~= b);
    }
}

} // verus!
