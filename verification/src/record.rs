//! The record model: one fact "file F in directory D was compiled with
//! argument list A", with a deterministic total order.

use vstd::prelude::*;
use vstd::string::StrSliceExecFns;
use crate::order::{
    str_lt, strs_lt, lemma_str_lt_trichotomy, lemma_str_lt_transitive, lemma_strs_lt_trichotomy,
    lemma_strs_lt_transitive,
};

verus! {

/// One compilation record, immutable value data.
pub struct Record {
    /// Absolute path of the working directory at compile time.
    pub directory: String,
    /// The source file argument exactly as passed, not canonicalized.
    pub file: String,
    /// The full command line used to invoke the real compiler.
    pub arguments: Vec<String>,
}

/// The mathematical value of a record.
#[verifier::ext_equal]
pub struct RecordModel {
    pub directory: Seq<char>,
    pub file: Seq<char>,
    pub arguments: Seq<Seq<char>>,
}

/// The mathematical value of a list of strings.
pub open spec fn strs_view(v: Seq<String>) -> Seq<Seq<char>> {
    v.map_values(|s: String| s@)
}

impl View for Record {
    type V = RecordModel;

    open spec fn view(&self) -> RecordModel {
        RecordModel {
            directory: self.directory@,
            file: self.file@,
            arguments: strs_view(self.arguments@),
        }
    }
}

/// Total order on records: lexicographic over (directory, file, arguments),
/// so serialized output is deterministic across processes and runs.
pub open spec fn rec_lt(a: RecordModel, b: RecordModel) -> bool {
    ||| str_lt(a.directory, b.directory)
    ||| (a.directory == b.directory && str_lt(a.file, b.file))
    ||| (a.directory == b.directory && a.file == b.file && strs_lt(a.arguments, b.arguments))
}

/// Exactly one of `rec_lt(a, b)`, `a == b`, `rec_lt(b, a)` holds.
pub proof fn lemma_rec_lt_trichotomy(a: RecordModel, b: RecordModel)
    ensures
        rec_lt(a, b) || a == b || rec_lt(b, a),
        rec_lt(a, b) ==> a != b,
        rec_lt(a, b) ==> !rec_lt(b, a),
        a == b ==> !rec_lt(a, b),
{
    lemma_str_lt_trichotomy(a.directory, b.directory);
    lemma_str_lt_trichotomy(a.file, b.file);
    lemma_strs_lt_trichotomy(a.arguments, b.arguments);
    if a.directory == b.directory && a.file == b.file && a.arguments == b.arguments {
        assert(a =~= b);
    }
}

/// `rec_lt` is transitive.
pub proof fn lemma_rec_lt_transitive(a: RecordModel, b: RecordModel, c: RecordModel)
    requires
        rec_lt(a, b),
        rec_lt(b, c),
    ensures
        rec_lt(a, c),
{
    lemma_str_lt_trichotomy(a.directory, b.directory);
    lemma_str_lt_trichotomy(b.directory, c.directory);
    lemma_str_lt_trichotomy(a.file, b.file);
    lemma_str_lt_trichotomy(b.file, c.file);
    lemma_strs_lt_trichotomy(a.arguments, b.arguments);
    lemma_strs_lt_trichotomy(b.arguments, c.arguments);
    if str_lt(a.directory, b.directory) && str_lt(b.directory, c.directory) {
        lemma_str_lt_transitive(a.directory, b.directory, c.directory);
    } else if a.directory == b.directory && a.file == b.file && b.directory == c.directory
        && b.file == c.file {
        lemma_strs_lt_transitive(a.arguments, b.arguments, c.arguments);
    } else if a.directory == b.directory && b.directory == c.directory {
        lemma_str_lt_trichotomy(a.file, b.file);
        lemma_str_lt_trichotomy(b.file, c.file);
        if str_lt(a.file, b.file) && str_lt(b.file, c.file) {
            lemma_str_lt_transitive(a.file, b.file, c.file);
        }
    }
}

/// Three-way comparison result.
#[derive(PartialEq, Eq, Structural, Clone, Copy)]
pub enum Rank {
    Less,
    Equal,
    Greater,
}

/// If two strings agree on a prefix and then differ (or one ends), the one
/// with the smaller character (or the shorter one) is lexicographically less.
proof fn lemma_str_lt_from_prefix(a: Seq<char>, b: Seq<char>, i: int)
    requires
        0 <= i <= a.len(),
        i <= b.len(),
        a.take(i) == b.take(i),
        (i < a.len() && i < b.len() && a[i] < b[i]) || (i == a.len() && i < b.len()),
    ensures
        str_lt(a, b),
    decreases i,
{
    if i == 0 {
    } else {
        assert(a[0] == a.take(i)[0]);
        assert(b[0] == b.take(i)[0]);
        let a1 = a.drop_first();
        let b1 = b.drop_first();
        assert forall|j: int| 0 <= j < i - 1 implies #[trigger] a1[j] == b1[j] by {
            assert(a1[j] == a[j + 1]);
            assert(b1[j] == b[j + 1]);
            assert(a.take(i)[j + 1] == a[j + 1]);
            assert(b.take(i)[j + 1] == b[j + 1]);
        }
        assert(a1.take(i - 1) =~= b1.take(i - 1));
        if i < a.len() && i < b.len() {
            assert(a1[i - 1] == a[i]);
            assert(b1[i - 1] == b[i]);
        }
        lemma_str_lt_from_prefix(a1, b1, i - 1);
    }
}

/// Compare two strings in the database order.
pub fn str_compare(a: &String, b: &String) -> (c: Rank)
    ensures
        (c == Rank::Less) == str_lt(a@, b@),
        (c == Rank::Equal) == (a@ == b@),
        (c == Rank::Greater) == str_lt(b@, a@),
{
    proof {
        lemma_str_lt_trichotomy(a@, b@);
    }
    let alen = a.as_str().unicode_len();
    let blen = b.as_str().unicode_len();
    let mut i: usize = 0;
    while i < alen && i < blen
        invariant
            i <= alen,
            i <= blen,
            alen == a@.len(),
            blen == b@.len(),
            a@.take(i as int) == b@.take(i as int),
        decreases alen - i,
    {
        let ca = a.as_str().get_char(i);
        let cb = b.as_str().get_char(i);
        if ca < cb {
            proof {
                lemma_str_lt_from_prefix(a@, b@, i as int);
                lemma_str_lt_trichotomy(a@, b@);
            }
            return Rank::Less;
        }
        if cb < ca {
            proof {
                lemma_str_lt_from_prefix(b@, a@, i as int);
                lemma_str_lt_trichotomy(a@, b@);
            }
            return Rank::Greater;
        }
        proof {
            assert forall|j: int| 0 <= j <= i implies #[trigger] a@[j] == b@[j] by {
                if j < i {
                    assert(a@.take(i as int)[j] == a@[j]);
                    assert(b@.take(i as int)[j] == b@[j]);
                }
            }
            assert(a@.take(i + 1) =~= b@.take(i + 1));
        }
        i = i + 1;
    }
    if alen < blen {
        proof {
            lemma_str_lt_from_prefix(a@, b@, i as int);
            lemma_str_lt_trichotomy(a@, b@);
        }
        Rank::Less
    } else if blen < alen {
        proof {
            lemma_str_lt_from_prefix(b@, a@, i as int);
            lemma_str_lt_trichotomy(a@, b@);
        }
        Rank::Greater
    } else {
        proof {
            assert(a@ =~= b@) by {
                assert(a@.take(i as int) =~= a@);
                assert(b@.take(i as int) =~= b@);
            }
            lemma_str_lt_trichotomy(a@, b@);
        }
        Rank::Equal
    }
}

/// Like `lemma_str_lt_from_prefix`, for sequences of strings.
proof fn lemma_strs_lt_from_prefix(a: Seq<Seq<char>>, b: Seq<Seq<char>>, i: int)
    requires
        0 <= i <= a.len(),
        i <= b.len(),
        a.take(i) == b.take(i),
        (i < a.len() && i < b.len() && str_lt(a[i], b[i])) || (i == a.len() && i < b.len()),
    ensures
        strs_lt(a, b),
    decreases i,
{
    if i == 0 {
        if i < a.len() && i < b.len() {
            lemma_str_lt_trichotomy(a[0], b[0]);
        }
    } else {
        assert(a[0] == a.take(i)[0]);
        assert(b[0] == b.take(i)[0]);
        lemma_str_lt_trichotomy(a[0], b[0]);
        let a1 = a.drop_first();
        let b1 = b.drop_first();
        assert forall|j: int| 0 <= j < i - 1 implies #[trigger] a1[j] == b1[j] by {
            assert(a1[j] == a[j + 1]);
            assert(b1[j] == b[j + 1]);
            assert(a.take(i)[j + 1] == a[j + 1]);
            assert(b.take(i)[j + 1] == b[j + 1]);
        }
        assert(a1.take(i - 1) =~= b1.take(i - 1));
        if i < a.len() && i < b.len() {
            assert(a1[i - 1] == a[i]);
            assert(b1[i - 1] == b[i]);
        }
        lemma_strs_lt_from_prefix(a1, b1, i - 1);
    }
}

/// Compare two argument lists in the database order.
pub fn args_compare(a: &Vec<String>, b: &Vec<String>) -> (c: Rank)
    ensures
        (c == Rank::Less) == strs_lt(strs_view(a@), strs_view(b@)),
        (c == Rank::Equal) == (strs_view(a@) == strs_view(b@)),
        (c == Rank::Greater) == strs_lt(strs_view(b@), strs_view(a@)),
{
    let ghost av = strs_view(a@);
    let ghost bv = strs_view(b@);
    proof {
        lemma_strs_lt_trichotomy(av, bv);
    }
    let mut i: usize = 0;
    while i < a.len() && i < b.len()
        invariant
            i <= a.len(),
            i <= b.len(),
            av == strs_view(a@),
            bv == strs_view(b@),
            av.len() == a@.len(),
            bv.len() == b@.len(),
            av.take(i as int) == bv.take(i as int),
        decreases a@.len() - i,
    {
        let c = str_compare(&a[i], &b[i]);
        if matches!(c, Rank::Less) {
            proof {
                lemma_strs_lt_from_prefix(av, bv, i as int);
                lemma_strs_lt_trichotomy(av, bv);
            }
            return Rank::Less;
        }
        if matches!(c, Rank::Greater) {
            proof {
                lemma_strs_lt_from_prefix(bv, av, i as int);
                lemma_strs_lt_trichotomy(av, bv);
            }
            return Rank::Greater;
        }
        proof {
            assert forall|j: int| 0 <= j <= i implies #[trigger] av[j] == bv[j] by {
                if j < i {
                    assert(av.take(i as int)[j] == av[j]);
                    assert(bv.take(i as int)[j] == bv[j]);
                }
            }
            assert(av.take(i + 1) =~= bv.take(i + 1));
        }
        i = i + 1;
    }
    if a.len() < b.len() {
        proof {
            lemma_strs_lt_from_prefix(av, bv, i as int);
            lemma_strs_lt_trichotomy(av, bv);
        }
        Rank::Less
    } else if b.len() < a.len() {
        proof {
            lemma_strs_lt_from_prefix(bv, av, i as int);
            lemma_strs_lt_trichotomy(av, bv);
        }
        Rank::Greater
    } else {
        proof {
            assert(av =~= bv) by {
                assert(av.take(i as int) =~= av);
                assert(bv.take(i as int) =~= bv);
            }
            lemma_strs_lt_trichotomy(av, bv);
        }
        Rank::Equal
    }
}

/// Compare two records in the database order.
pub fn rec_compare(a: &Record, b: &Record) -> (c: Rank)
    ensures
        (c == Rank::Less) == rec_lt(a@, b@),
        (c == Rank::Equal) == (a@ == b@),
        (c == Rank::Greater) == rec_lt(b@, a@),
{
    proof {
        lemma_rec_lt_trichotomy(a@, b@);
    }
    let cd = str_compare(&a.directory, &b.directory);
    if matches!(cd, Rank::Less) {
        return Rank::Less;
    }
    if matches!(cd, Rank::Greater) {
        return Rank::Greater;
    }
    let cf = str_compare(&a.file, &b.file);
    if matches!(cf, Rank::Less) {
        return Rank::Less;
    }
    if matches!(cf, Rank::Greater) {
        return Rank::Greater;
    }
    let ca = args_compare(&a.arguments, &b.arguments);
    if matches!(ca, Rank::Less) {
        return Rank::Less;
    }
    if matches!(ca, Rank::Greater) {
        return Rank::Greater;
    }
    proof {
        assert(a@ =~= b@);
    }
    Rank::Equal
}

/// Clone a list of strings; the clone has the same mathematical value.
pub fn clone_strings(v: &Vec<String>) -> (r: Vec<String>)
    ensures
        strs_view(r@) == strs_view(v@),
{
    let mut r: Vec<String> = Vec::new();
    let mut i: usize = 0;
    while i < v.len()
        invariant
            i <= v.len(),
            r@.len() == i,
            forall|j: int| 0 <= j < i ==> r@[j]@ == v@[j]@,
        decreases v@.len() - i,
    {
        r.push(v[i].clone());
        i = i + 1;
    }
    proof {
        assert(strs_view(r@) =~= strs_view(v@));
    }
    r
}

impl Record {
    /// Build the record for one source file of the current invocation.
    pub fn new(directory: &String, file: &String, arguments: &Vec<String>) -> (r: Record)
        ensures
            r@ == (RecordModel {
                directory: directory@,
                file: file@,
                arguments: strs_view(arguments@),
            }),
    {
        let r = Record {
            directory: directory.clone(),
            file: file.clone(),
            arguments: clone_strings(arguments),
        };
        proof {
            assert(r@ =~= RecordModel {
                directory: directory@,
                file: file@,
                arguments: strs_view(arguments@),
            });
        }
        r
    }
}

} // verus!
