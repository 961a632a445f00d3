//! What the shim itself decides before it synchronizes: which arguments
//! denote source files, and which real compiler its own invocation name
//! stands for.  Locating the executable and launching it happen outside
//! the library.

use vstd::prelude::*;
use vstd::string::StrSliceExecFns;
use crate::order::{str_lt, lemma_str_lt_transitive};
use crate::record::{strs_view, Rank, str_compare};
use crate::merge::sorted_strs;
use crate::codec::begins;

verus! {

/// `t` ends with `p`.
pub open spec fn ends(t: Seq<char>, p: Seq<char>) -> bool {
    p.len() <= t.len() && t.skip(t.len() - p.len()) == p
}

/// An argument that names a source file, by its suffix.
pub open spec fn is_source_name(s: Seq<char>) -> bool {
    ends(s, ".c"@) || ends(s, ".cc"@) || ends(s, ".cpp"@)
}

/// The prefix the shim's own invocation name must carry.
pub open spec fn shim_prefix() -> Seq<char> {
    "cdbgen-"@
}

/// Whether the string ends with the given suffix.
fn ends_with_lit(s: &String, suffix: &str) -> (r: bool)
    ensures
        r == ends(s@, suffix@),
{
    let n = s.as_str().unicode_len();
    let m = suffix.unicode_len();
    if m > n {
        return false;
    }
    let mut i: usize = 0;
    while i < m
        invariant
            i <= m,
            m <= n,
            n == s@.len(),
            m == suffix@.len(),
            forall|j: int| 0 <= j < i ==> s@[n - m + j] == suffix@[j],
        ensures
            i <= m,
            m <= n,
            n == s@.len(),
            m == suffix@.len(),
            forall|j: int| 0 <= j < i ==> s@[n - m + j] == suffix@[j],
            i < m ==> s@[n - m + i] != suffix@[i as int],
        decreases m - i,
    {
        if s.as_str().get_char(n - m + i) != suffix.get_char(i) {
            break;
        }
        i = i + 1;
    }
    if i == m {
        proof {
            assert(s@.skip(n - m as int) =~= suffix@) by {
                assert forall|j: int| 0 <= j < m implies s@.skip(n - m as int)[j]
                    == suffix@[j] by {
                    assert(s@.skip(n - m as int)[j] == s@[n - m + j]);
                }
            }
        }
        true
    } else {
        proof {
            if ends(s@, suffix@) {
                assert(s@.skip(n - m as int)[i as int] == s@[n - m + i]);
            }
        }
        false
    }
}

/// Insert a string into a sorted list, keeping the order; a string already
/// present is not duplicated.
fn insert_sorted(v: &mut Vec<String>, s: String)
    requires
        sorted_strs(strs_view(old(v)@)),
    ensures
        sorted_strs(strs_view(final(v)@)),
        strs_view(final(v)@).to_set() == strs_view(old(v)@).to_set().insert(s@),
{
    let ghost pre = strs_view(old(v)@);
    let n = v.len();
    let mut idx: usize = 0;
    let mut present: bool = false;
    while idx < n
        invariant_except_break
            !present,
        invariant
            idx <= n,
            n == pre.len(),
            strs_view(v@) == pre,
            forall|j: int| 0 <= j < idx ==> str_lt(#[trigger] pre[j], s@),
            present ==> idx < n && pre[idx as int] == s@,
        ensures
            idx <= n,
            strs_view(v@) == pre,
            forall|j: int| 0 <= j < idx ==> str_lt(#[trigger] pre[j], s@),
            present ==> idx < n && pre[idx as int] == s@,
            !present && idx < n ==> str_lt(s@, pre[idx as int]),
        decreases n - idx,
    {
        let c = str_compare(&v[idx], &s);
        proof {
            assert(pre[idx as int] == v@[idx as int]@);
        }
        if matches!(c, Rank::Equal) {
            present = true;
            break;
        }
        if matches!(c, Rank::Greater) {
            break;
        }
        idx = idx + 1;
    }
    if present {
        proof {
            assert(pre.contains(s@));
            assert(strs_view(v@).to_set().contains(s@));
            assert(strs_view(v@).to_set() =~= strs_view(v@).to_set().insert(s@));
        }
    } else {
        v.insert(idx, s);
        proof {
            let post = strs_view(v@);
            assert(post =~= pre.insert(idx as int, s@)) by {
                assert forall|j: int| 0 <= j < post.len() implies post[j] == pre.insert(
                    idx as int,
                    s@,
                )[j] by {
                    assert(post[j] == v@[j]@);
                }
            }
            assert forall|i: int, j: int| 0 <= i < j < post.len() implies str_lt(
                post[i],
                post[j],
            ) by {
                if i < idx && j == idx {
                    assert(str_lt(pre[i], s@));
                } else if i == idx && j > idx {
                    if j - 1 > idx {
                        lemma_str_lt_transitive(s@, pre[idx as int], pre[j - 1]);
                    }
                } else if i < idx && j > idx {
                    assert(str_lt(pre[i], pre[j - 1]));
                }
            }
            assert(post.to_set() =~= pre.to_set().insert(s@)) by {
                assert forall|m: Seq<char>| post.to_set().contains(m) implies pre.to_set().insert(
                    s@,
                ).contains(m) by {
                    let k = choose|k: int| 0 <= k < post.len() && post[k] == m;
                    if k < idx {
                        assert(pre[k] == m);
                        assert(pre.contains(m));
                    } else if k > idx {
                        assert(pre[k - 1] == m);
                        assert(pre.contains(m));
                    }
                }
                assert forall|m: Seq<char>| pre.to_set().insert(s@).contains(m) implies post
                    .to_set().contains(m) by {
                    if m == s@ {
                        assert(post[idx as int] == m);
                        assert(post.contains(m));
                    } else {
                        let k = choose|k: int| 0 <= k < pre.len() && pre[k] == m;
                        if k < idx {
                            assert(post[k] == m);
                        } else {
                            assert(post[k + 1] == m);
                        }
                        assert(post.contains(m));
                    }
                }
            }
        }
    }
}

/// The set of arguments that name source files, in canonical order and
/// without duplicates.
pub fn source_files(args: &Vec<String>) -> (r: Vec<String>)
    ensures
        sorted_strs(strs_view(r@)),
        strs_view(r@).to_set() == strs_view(args@).to_set().filter(
            |f: Seq<char>| is_source_name(f),
        ),
{
    let mut r: Vec<String> = Vec::new();
    let n = args.len();
    let mut i: usize = 0;
    proof {
        assert(strs_view(r@).to_set() =~= strs_view(args@.take(0)).to_set().filter(
            |f: Seq<char>| is_source_name(f),
        ));
    }
    while i < n
        invariant
            i <= n,
            n == args@.len(),
            sorted_strs(strs_view(r@)),
            strs_view(r@).to_set() == strs_view(args@.take(i as int)).to_set().filter(
                |f: Seq<char>| is_source_name(f),
            ),
        decreases n - i,
    {
        let ghost prevset = strs_view(r@).to_set();
        let ghost a = args@[i as int]@;
        let is_src = ends_with_lit(&args[i], ".c") || ends_with_lit(&args[i], ".cc")
            || ends_with_lit(&args[i], ".cpp");
        if is_src {
            insert_sorted(&mut r, args[i].clone());
        }
        proof {
            let prev = strs_view(args@.take(i as int));
            let cur = strs_view(args@.take(i + 1));
            assert(cur =~= prev.push(a)) by {
                assert forall|j: int| 0 <= j < cur.len() implies cur[j] == prev.push(a)[j] by {
                    assert(cur[j] == args@.take(i + 1)[j]@);
                    if j < i {
                        assert(prev[j] == args@.take(i as int)[j]@);
                    }
                }
            }
            let pred = |f: Seq<char>| is_source_name(f);
            assert(strs_view(r@).to_set() =~= cur.to_set().filter(pred)) by {
                assert forall|m: Seq<char>| cur.to_set().filter(pred).contains(m) implies strs_view(
                    r@,
                ).to_set().contains(m) by {
                    let k = choose|k: int| 0 <= k < cur.len() && cur[k] == m;
                    if k < i {
                        assert(prev[k] == m);
                        assert(prev.contains(m));
                        assert(prevset.contains(m));
                    } else {
                        assert(m == a);
                    }
                }
                assert forall|m: Seq<char>| strs_view(r@).to_set().contains(m) implies cur.to_set()
                    .filter(pred).contains(m) by {
                    if is_src && m == a {
                        assert(cur[i as int] == a);
                        assert(cur.contains(a));
                    } else {
                        assert(prevset.contains(m));
                        assert(prev.contains(m));
                        let k = choose|k: int| 0 <= k < prev.len() && prev[k] == m;
                        assert(cur[k] == m);
                        assert(cur.contains(m));
                    }
                }
            }
        }
        i = i + 1;
    }
    proof {
        assert(args@.take(n as int) =~= args@);
    }
    r
}

/// The real compiler's name: the invocation name with the shim's prefix
/// stripped.  An invocation name without the prefix is a startup error.
pub fn compiler_name(invoked: &String) -> (r: Option<String>)
    ensures
        match r {
            Some(name) => begins(invoked@, shim_prefix()) && name@ == invoked@.skip(
                shim_prefix().len() as int,
            ),
            None => !begins(invoked@, shim_prefix()),
        },
{
    let n = invoked.as_str().unicode_len();
    let m = "cdbgen-".unicode_len();
    if m > n {
        proof {
            if begins(invoked@, shim_prefix()) {
                assert(shim_prefix().len() <= invoked@.len());
            }
        }
        return None;
    }
    let mut i: usize = 0;
    while i < m
        invariant
            i <= m,
            m <= n,
            n == invoked@.len(),
            m == shim_prefix().len(),
            forall|j: int| 0 <= j < i ==> invoked@[j] == shim_prefix()[j],
        ensures
            i <= m,
            m <= n,
            n == invoked@.len(),
            m == shim_prefix().len(),
            forall|j: int| 0 <= j < i ==> invoked@[j] == shim_prefix()[j],
            i < m ==> invoked@[i as int] != shim_prefix()[i as int],
        decreases m - i,
    {
        if invoked.as_str().get_char(i) != "cdbgen-".get_char(i) {
            break;
        }
        i = i + 1;
    }
    if i < m {
        proof {
            if begins(invoked@, shim_prefix()) {
                assert(invoked@.take(m as int)[i as int] == shim_prefix()[i as int]);
            }
        }
        return None;
    }
    proof {
        assert(begins(invoked@, shim_prefix())) by {
            assert(invoked@.take(m as int) =~= shim_prefix());
        }
    }
    let rest = invoked.as_str().substring_char(m, n);
    let name = rest.to_owned();
    proof {
        assert(name@ =~= invoked@.skip(m as int));
    }
    Some(name)
}

} // verus!
