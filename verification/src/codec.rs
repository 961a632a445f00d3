//! The persisted file format: a pretty-printed array of record objects,
//! one `{ "directory": ..., "file": ..., "arguments": [...] }` object per
//! record, in canonical database order, with a trailing newline.
//!
//! Serialization is specified exactly, character by character, and parsing
//! is specified as the inverse on canonical input; any other input is a
//! hard parse failure.  Strings escape `"`, `\` and control characters.

use vstd::prelude::*;
use vstd::string::StrSliceExecFns;
use vstd::string::StringExecFns;
use crate::record::{Record, RecordModel, strs_view, Rank, rec_compare, rec_lt};
use crate::record::{lemma_rec_lt_transitive};
use crate::db::{Database, sorted_strict, rec_views};

verus! {

// ---------------------------------------------------------------------------
// Serialization, specified character by character.
// ---------------------------------------------------------------------------

/// The hexadecimal digit for a value below sixteen.
pub open spec fn hex_digit(k: int) -> char {
    if k == 0 {
        '0'
    } else if k == 1 {
        '1'
    } else if k == 2 {
        '2'
    } else if k == 3 {
        '3'
    } else if k == 4 {
        '4'
    } else if k == 5 {
        '5'
    } else if k == 6 {
        '6'
    } else if k == 7 {
        '7'
    } else if k == 8 {
        '8'
    } else if k == 9 {
        '9'
    } else if k == 10 {
        'a'
    } else if k == 11 {
        'b'
    } else if k == 12 {
        'c'
    } else if k == 13 {
        'd'
    } else if k == 14 {
        'e'
    } else {
        'f'
    }
}

/// How one character is written inside a quoted string.
pub open spec fn esc_char(c: char) -> Seq<char> {
    if c == '"' {
        seq!['\\', '"']
    } else if c == '\\' {
        seq!['\\', '\\']
    } else if ' ' > c {
        seq!['\\', 'u', '0', '0', hex_digit(((c as u32) / 16) as int), hex_digit(((c as u32) % 16) as int)]
    } else {
        seq![c]
    }
}

/// How a whole string is written, between its quotes.
pub open spec fn esc(s: Seq<char>) -> Seq<char>
    decreases s.len(),
{
    if s.len() == 0 {
        Seq::empty()
    } else {
        esc_char(s[0]) + esc(s.drop_first())
    }
}

/// A quoted string.
pub open spec fn ser_string(s: Seq<char>) -> Seq<char> {
    seq!['"'] + esc(s) + seq!['"']
}

/// The lines of a non-empty argument array, without brackets.
pub open spec fn ser_args_items(args: Seq<Seq<char>>) -> Seq<char>
    decreases args.len(),
{
    if args.len() == 0 {
        Seq::empty()
    } else if args.len() == 1 {
        "      "@ + ser_string(args[0])
    } else {
        "      "@ + ser_string(args[0]) + ",\n"@ + ser_args_items(args.drop_first())
    }
}

/// An argument array.
pub open spec fn ser_args(args: Seq<Seq<char>>) -> Seq<char> {
    if args.len() == 0 {
        "[]"@
    } else {
        "[\n"@ + ser_args_items(args) + "\n    ]"@
    }
}

/// One record object.
pub open spec fn ser_record(r: RecordModel) -> Seq<char> {
    "  {\n    \"directory\": "@ + ser_string(r.directory) + ",\n    \"file\": "@ + ser_string(
        r.file,
    ) + ",\n    \"arguments\": "@ + ser_args(r.arguments) + "\n  }"@
}

/// The objects of a non-empty database, without brackets.
pub open spec fn ser_recs(rs: Seq<RecordModel>) -> Seq<char>
    decreases rs.len(),
{
    if rs.len() == 0 {
        Seq::empty()
    } else if rs.len() == 1 {
        ser_record(rs[0])
    } else {
        ser_record(rs[0]) + ",\n"@ + ser_recs(rs.drop_first())
    }
}

/// The whole database file, trailing newline included.
pub open spec fn ser_db(rs: Seq<RecordModel>) -> Seq<char> {
    if rs.len() == 0 {
        "[]\n"@
    } else {
        "[\n"@ + ser_recs(rs) + "\n]\n"@
    }
}

/// Relies on String::push: it appends exactly the given character.
#[verifier::external_body]
fn push_char(out: &mut String, c: char)
    ensures
        final(out)@ == old(out)@.push(c),
{
    out.push(c);
}

/// The escape of a longer string extends the escape of its prefix.
proof fn lemma_esc_push(t: Seq<char>, c: char)
    ensures
        esc(t.push(c)) == esc(t) + esc_char(c),
    decreases t.len(),
{
    if t.len() == 0 {
        assert(t.push(c)[0] == c);
        assert(t.push(c).drop_first() =~= Seq::<char>::empty());
        assert(esc(t.push(c).drop_first()) == Seq::<char>::empty());
        assert(esc(t.push(c)) == esc_char(c) + Seq::<char>::empty());
        assert(esc(t) == Seq::<char>::empty());
        assert(esc_char(c) + Seq::<char>::empty() =~= Seq::<char>::empty() + esc_char(c));
    } else {
        assert(t.push(c)[0] == t[0]);
        assert(t.push(c).drop_first() =~= t.drop_first().push(c));
        lemma_esc_push(t.drop_first(), c);
        assert(esc(t.push(c)) =~= esc(t) + esc_char(c));
    }
}

/// The hexadecimal digit character for a value below sixteen.
fn hex_digit_of(k: u8) -> (c: char)
    requires
        k < 16,
    ensures
        c == hex_digit(k as int),
{
    if k == 0 {
        '0'
    } else if k == 1 {
        '1'
    } else if k == 2 {
        '2'
    } else if k == 3 {
        '3'
    } else if k == 4 {
        '4'
    } else if k == 5 {
        '5'
    } else if k == 6 {
        '6'
    } else if k == 7 {
        '7'
    } else if k == 8 {
        '8'
    } else if k == 9 {
        '9'
    } else if k == 10 {
        'a'
    } else if k == 11 {
        'b'
    } else if k == 12 {
        'c'
    } else if k == 13 {
        'd'
    } else if k == 14 {
        'e'
    } else {
        'f'
    }
}

/// Append one string, escaped, between quotes.
fn write_quoted(out: &mut String, s: &String)
    ensures
        final(out)@ == old(out)@ + ser_string(s@),
{
    push_char(out, '"');
    let n = s.as_str().unicode_len();
    let mut i: usize = 0;
    while i < n
        invariant
            i <= n,
            n == s@.len(),
            out@ == old(out)@ + seq!['"'] + esc(s@.take(i as int)),
        decreases n - i,
    {
        let c = s.as_str().get_char(i);
        let ghost pre = out@;
        if c == '"' {
            out.append("\\\"");
            proof {
                reveal_strlit("\\\"");
                assert(out@ =~= pre + esc_char(c));
            }
        } else if c == '\\' {
            out.append("\\\\");
            proof {
                reveal_strlit("\\\\");
                assert(out@ =~= pre + esc_char(c));
            }
        } else if ' ' > c {
            out.append("\\u00");
            let v = c as u32;
            push_char(out, hex_digit_of((v / 16) as u8));
            push_char(out, hex_digit_of((v % 16) as u8));
            proof {
                reveal_strlit("\\u00");
                assert(out@ =~= pre + esc_char(c));
            }
        } else {
            push_char(out, c);
            proof {
                assert(out@ =~= pre + esc_char(c));
            }
        }
        proof {
            lemma_esc_push(s@.take(i as int), c);
            assert(s@.take(i + 1) =~= s@.take(i as int).push(s@[i as int]));
            assert(out@ =~= old(out)@ + seq!['"'] + esc(s@.take(i + 1)));
        }
        i = i + 1;
    }
    push_char(out, '"');
    proof {
        assert(s@.take(n as int) =~= s@);
        assert(out@ =~= old(out)@ + ser_string(s@));
    }
}

/// Appending one more argument line to a non-empty argument list.
proof fn lemma_items_push(args: Seq<Seq<char>>, x: Seq<char>)
    requires
        args.len() >= 1,
    ensures
        ser_args_items(args.push(x)) == ser_args_items(args) + ",\n"@ + "      "@ + ser_string(x),
    decreases args.len(),
{
    let ap = args.push(x);
    assert(ap[0] == args[0]);
    if args.len() == 1 {
        assert(ap.drop_first() =~= seq![x]);
        assert(ser_args_items(seq![x]) == "      "@ + ser_string(x));
        assert(ser_args_items(ap) =~= ser_args_items(args) + ",\n"@ + "      "@ + ser_string(x));
    } else {
        assert(ap.drop_first() =~= args.drop_first().push(x));
        lemma_items_push(args.drop_first(), x);
        assert(ser_args_items(ap) =~= ser_args_items(args) + ",\n"@ + "      "@ + ser_string(x));
    }
}

/// Append an argument array.
fn write_args(out: &mut String, args: &Vec<String>)
    ensures
        final(out)@ == old(out)@ + ser_args(strs_view(args@)),
{
    let ghost av = strs_view(args@);
    let n = args.len();
    if n == 0 {
        out.append("[]");
        proof {
            assert(out@ =~= old(out)@ + ser_args(av));
        }
        return ;
    }
    out.append("[\n");
    let mut k: usize = 0;
    while k < n
        invariant
            k <= n,
            n == args@.len(),
            n >= 1,
            av == strs_view(args@),
            out@ == old(out)@ + "[\n"@ + ser_args_items(av.take(k as int)),
        decreases n - k,
    {
        let ghost pre = out@;
        if k > 0 {
            out.append(",\n");
        }
        out.append("      ");
        write_quoted(out, &args[k]);
        proof {
            assert(av[k as int] == args@[k as int]@);
            assert(av.take(k + 1) =~= av.take(k as int).push(av[k as int]));
            if k == 0 {
                assert(av.take(1) =~= seq![av[0]]);
                assert(ser_args_items(seq![av[0]]) == "      "@ + ser_string(av[0]));
                assert(out@ =~= old(out)@ + "[\n"@ + ser_args_items(av.take(1)));
            } else {
                lemma_items_push(av.take(k as int), av[k as int]);
                assert(out@ =~= old(out)@ + "[\n"@ + ser_args_items(av.take(k + 1)));
            }
        }
        k = k + 1;
    }
    out.append("\n    ]");
    proof {
        assert(av.take(n as int) =~= av);
        assert(out@ =~= old(out)@ + ser_args(av));
    }
}

/// Append one record object.
fn write_record(out: &mut String, r: &Record)
    ensures
        final(out)@ == old(out)@ + ser_record(r@),
{
    out.append("  {\n    \"directory\": ");
    write_quoted(out, &r.directory);
    out.append(",\n    \"file\": ");
    write_quoted(out, &r.file);
    out.append(",\n    \"arguments\": ");
    write_args(out, &r.arguments);
    out.append("\n  }");
    proof {
        assert(out@ =~= old(out)@ + ser_record(r@));
    }
}

/// Appending one more record object to a non-empty list.
proof fn lemma_recs_push(rs: Seq<RecordModel>, x: RecordModel)
    requires
        rs.len() >= 1,
    ensures
        ser_recs(rs.push(x)) == ser_recs(rs) + ",\n"@ + ser_record(x),
    decreases rs.len(),
{
    let rp = rs.push(x);
    assert(rp[0] == rs[0]);
    if rs.len() == 1 {
        assert(rp.drop_first() =~= seq![x]);
        assert(ser_recs(seq![x]) == ser_record(x));
        assert(ser_recs(rp) =~= ser_recs(rs) + ",\n"@ + ser_record(x));
    } else {
        assert(rp.drop_first() =~= rs.drop_first().push(x));
        lemma_recs_push(rs.drop_first(), x);
        assert(ser_recs(rp) =~= ser_recs(rs) + ",\n"@ + ser_record(x));
    }
}

/// Serialize a database to the exact persisted file content.
pub fn to_text(db: &Database) -> (r: String)
    ensures
        r@ == ser_db(db.seq_model()),
{
    let ghost rs = db.seq_model();
    let n = db.records.len();
    let mut out = String::new();
    if n == 0 {
        out.append("[]\n");
        proof {
            assert(out@ =~= ser_db(rs));
        }
        return out;
    }
    out.append("[\n");
    let mut k: usize = 0;
    while k < n
        invariant
            k <= n,
            n == rs.len(),
            n >= 1,
            rs == db.seq_model(),
            out@ == "[\n"@ + ser_recs(rs.take(k as int)),
        decreases n - k,
    {
        if k > 0 {
            out.append(",\n");
        }
        write_record(&mut out, &db.records[k]);
        proof {
            assert(rs[k as int] == db.records@[k as int]@);
            assert(rs.take(k + 1) =~= rs.take(k as int).push(rs[k as int]));
            if k == 0 {
                assert(rs.take(1) =~= seq![rs[0]]);
                assert(ser_recs(seq![rs[0]]) == ser_record(rs[0]));
                assert(out@ =~= "[\n"@ + ser_recs(rs.take(1)));
            } else {
                lemma_recs_push(rs.take(k as int), rs[k as int]);
                assert(out@ =~= "[\n"@ + ser_recs(rs.take(k + 1)));
            }
        }
        k = k + 1;
    }
    out.append("\n]\n");
    proof {
        assert(rs.take(n as int) =~= rs);
        assert(out@ =~= ser_db(rs));
    }
    out
}



// ---------------------------------------------------------------------------
// Parsing: the inverse of serialization on canonical input; anything else
// is a hard parse failure.
// ---------------------------------------------------------------------------

/// `t` starts with `p`.
pub open spec fn begins(t: Seq<char>, p: Seq<char>) -> bool {
    p.len() <= t.len() && t.take(p.len() as int) == p
}

/// The value of a lowercase hexadecimal digit, or -1.
pub open spec fn hex_val(c: char) -> int {
    if c == '0' {
        0
    } else if c == '1' {
        1
    } else if c == '2' {
        2
    } else if c == '3' {
        3
    } else if c == '4' {
        4
    } else if c == '5' {
        5
    } else if c == '6' {
        6
    } else if c == '7' {
        7
    } else if c == '8' {
        8
    } else if c == '9' {
        9
    } else if c == 'a' {
        10
    } else if c == 'b' {
        11
    } else if c == 'c' {
        12
    } else if c == 'd' {
        13
    } else if c == 'e' {
        14
    } else if c == 'f' {
        15
    } else {
        -1
    }
}

pub open spec fn is_hex(c: char) -> bool {
    hex_val(c) >= 0
}

/// Parse a string body after its opening quote, up to and including the
/// closing quote.  Returns the string and how many characters were read.
pub open spec fn p_string(t: Seq<char>) -> Option<(Seq<char>, int)>
    decreases t.len(),
{
    if t.len() == 0 {
        None
    } else if t[0] == '"' {
        Some((Seq::empty(), 1))
    } else if t[0] == '\\' {
        if t.len() < 2 {
            None
        } else if t[1] == '"' || t[1] == '\\' {
            match p_string(t.skip(2)) {
                Some(r) => Some((seq![t[1]] + r.0, r.1 + 2)),
                None => None,
            }
        } else if t[1] == 'u' {
            if t.len() < 6 {
                None
            } else if t[2] == '0' && t[3] == '0' && is_hex(t[4]) && is_hex(t[5]) {
                match p_string(t.skip(6)) {
                    Some(r) => Some(
                        (seq![((hex_val(t[4]) * 16 + hex_val(t[5])) as char)] + r.0, r.1 + 6),
                    ),
                    None => None,
                }
            } else {
                None
            }
        } else {
            None
        }
    } else {
        match p_string(t.skip(1)) {
            Some(r) => Some((seq![t[0]] + r.0, r.1 + 1)),
            None => None,
        }
    }
}

/// A successful string parse reads between one character and the whole rest.
pub proof fn lemma_p_string_bounds(t: Seq<char>)
    requires
        p_string(t) is Some,
    ensures
        1 <= p_string(t)->Some_0.1 <= t.len(),
    decreases t.len(),
{
    if t.len() == 0 {
    } else if t[0] == '"' {
    } else if t[0] == '\\' {
        if t.len() >= 2 && (t[1] == '"' || t[1] == '\\') {
            lemma_p_string_bounds(t.skip(2));
        } else if t.len() >= 6 && t[1] == 'u' {
            lemma_p_string_bounds(t.skip(6));
        }
    } else {
        lemma_p_string_bounds(t.skip(1));
    }
}

/// Parse the lines of a non-empty argument array, consuming the closing
/// `]` line.
pub open spec fn p_items(t: Seq<char>) -> Option<(Seq<Seq<char>>, int)>
    decreases t.len(),
{
    if !begins(t, "      \""@) {
        None
    } else if t.len() < 7 {
        None
    } else {
        match p_string(t.skip(7)) {
            None => None,
            Some(r) => {
                let n1 = r.1;
                if n1 < 1 || n1 > t.len() - 7 {
                    None
                } else {
                    let t2 = t.skip(7 + n1 as int);
                    if begins(t2, ",\n"@) {
                        if t2.len() < 2 {
                            None
                        } else {
                            match p_items(t2.skip(2)) {
                                None => None,
                                Some(q) => Some((seq![r.0] + q.0, 7 + n1 + 2 + q.1)),
                            }
                        }
                    } else if begins(t2, "\n    ]"@) {
                        Some((seq![r.0], 7 + n1 + 6))
                    } else {
                        None
                    }
                }
            },
        }
    }
}

/// Parse an argument array, brackets included.
pub open spec fn p_args(t: Seq<char>) -> Option<(Seq<Seq<char>>, int)> {
    if begins(t, "[]"@) {
        Some((Seq::empty(), 2))
    } else if begins(t, "[\n"@) && t.len() >= 2 {
        match p_items(t.skip(2)) {
            None => None,
            Some(r) => Some((r.0, 2 + r.1)),
        }
    } else {
        None
    }
}

/// Parse one record object.
#[verifier::opaque]
pub open spec fn p_record(t: Seq<char>) -> Option<(RecordModel, int)> {
    let l1 = "  {\n    \"directory\": \""@;
    if !begins(t, l1) {
        None
    } else {
        let t1 = t.skip(l1.len() as int);
        match p_string(t1) {
            None => None,
            Some(r1) => {
                let n1 = r1.1;
                if n1 < 0 || n1 > t1.len() {
                    None
                } else {
                    let l2 = ",\n    \"file\": \""@;
                    let t2 = t1.skip(n1 as int);
                    if !begins(t2, l2) {
                        None
                    } else {
                        let t3 = t2.skip(l2.len() as int);
                        match p_string(t3) {
                            None => None,
                            Some(r2) => {
                                let n2 = r2.1;
                                if n2 < 0 || n2 > t3.len() {
                                    None
                                } else {
                                    let l3 = ",\n    \"arguments\": "@;
                                    let t4 = t3.skip(n2 as int);
                                    if !begins(t4, l3) {
                                        None
                                    } else {
                                        let t5 = t4.skip(l3.len() as int);
                                        match p_args(t5) {
                                            None => None,
                                            Some(r3) => {
                                                let n3 = r3.1;
                                                if n3 < 0 || n3 > t5.len() {
                                                    None
                                                } else {
                                                    let l4 = "\n  }"@;
                                                    let t6 = t5.skip(n3);
                                                    if !begins(t6, l4) {
                                                        None
                                                    } else {
                                                        Some(
                                                            (
                                                                RecordModel {
                                                                    directory: r1.0,
                                                                    file: r2.0,
                                                                    arguments: r3.0,
                                                                },
                                                                l1.len() + n1 + l2.len() + n2
                                                                    + l3.len() + n3 + l4.len(),
                                                            ),
                                                        )
                                                    }
                                                }
                                            },
                                        }
                                    }
                                }
                            },
                        }
                    }
                }
            },
        }
    }
}

/// Parse one or more record objects separated by `,\n`.
pub open spec fn p_recs(t: Seq<char>) -> Option<(Seq<RecordModel>, int)>
    decreases t.len(),
{
    match p_record(t) {
        None => None,
        Some(r) => {
            let n = r.1;
            if n < 1 || n > t.len() {
                None
            } else {
                let t1 = t.skip(n);
                if begins(t1, ",\n"@) {
                    if t1.len() < 2 {
                        None
                    } else {
                        match p_recs(t1.skip(2)) {
                            None => None,
                            Some(q) => Some((seq![r.0] + q.0, n + 2 + q.1)),
                        }
                    }
                } else {
                    Some((seq![r.0], n))
                }
            }
        },
    }
}

/// Parse a whole database file; the entire content must be consumed.
pub open spec fn p_db(t: Seq<char>) -> Option<Seq<RecordModel>> {
    if t == "[]\n"@ {
        Some(Seq::empty())
    } else if begins(t, "[\n"@) && t.len() >= 2 {
        match p_recs(t.skip(2)) {
            None => None,
            Some(r) => {
                let n = r.1;
                if 0 <= n <= t.len() - 2 && t.skip(2).skip(n) == "\n]\n"@ {
                    Some(r.0)
                } else {
                    None
                }
            },
        }
    } else {
        None
    }
}

/// What a non-blank file content denotes: it must parse and be in canonical
/// order.
pub open spec fn loaded(t: Seq<char>) -> Option<Seq<RecordModel>> {
    match p_db(t) {
        Some(rs) => if sorted_strict(rs) {
            Some(rs)
        } else {
            None
        },
        None => None,
    }
}

/// Stored content is not valid records.
#[derive(Clone, Copy, PartialEq, Eq, Structural, Debug)]
pub struct ParseError;

/// Skipping twice is skipping once by the sum.
proof fn lemma_skip_skip(t: Seq<char>, a: int, b: int)
    requires
        0 <= a,
        0 <= b,
        a + b <= t.len(),
    ensures
        t.skip(a).skip(b) == t.skip(a + b),
{
    assert(t.skip(a).skip(b) =~= t.skip(a + b));
}

/// The characters of a string, in order.
fn chars_of(s: &str) -> (r: Vec<char>)
    ensures
        r@ == s@,
{
    let n = s.unicode_len();
    let mut r: Vec<char> = Vec::new();
    let mut i: usize = 0;
    while i < n
        invariant
            i <= n,
            n == s@.len(),
            r@ == s@.take(i as int),
        decreases n - i,
    {
        r.push(s.get_char(i));
        proof {
            assert(r@ =~= s@.take(i + 1));
        }
        i = i + 1;
    }
    proof {
        assert(s@.take(n as int) =~= s@);
    }
    r
}

/// Whether the input continues with the given literal at `pos`.
fn expect_lit(input: &Vec<char>, pos: usize, lit: &str) -> (r: bool)
    requires
        pos <= input@.len(),
    ensures
        r == begins(input@.skip(pos as int), lit@),
        r ==> pos + lit@.len() <= input@.len(),
{
    let ghost t = input@.skip(pos as int);
    let total = input.len();
    let n = lit.unicode_len();
    if n > total - pos {
        proof {
            assert(t.len() == input@.len() - pos);
        }
        return false;
    }
    let mut i: usize = 0;
    while i < n
        invariant
            i <= n,
            n == lit@.len(),
            total == input@.len(),
            pos + n <= total,
            t == input@.skip(pos as int),
            forall|j: int| 0 <= j < i ==> input@[pos + j] == lit@[j],
        ensures
            i <= n,
            n == lit@.len(),
            pos + n <= input@.len(),
            forall|j: int| 0 <= j < i ==> input@[pos + j] == lit@[j],
            i < n ==> input@[pos + i] != lit@[i as int],
        decreases n - i,
    {
        if input[pos + i] != lit.get_char(i) {
            break;
        }
        i = i + 1;
    }
    if i == n {
        proof {
            assert(t.take(n as int) =~= lit@) by {
                assert forall|j: int| 0 <= j < n implies t.take(n as int)[j] == lit@[j] by {
                    assert(t[j] == input@[pos + j]);
                }
            }
        }
        true
    } else {
        proof {
            if begins(t, lit@) {
                assert(t.take(n as int)[i as int] == lit@[i as int]);
                assert(t[i as int] == input@[pos + i]);
            }
        }
        false
    }
}

/// The value of a lowercase hexadecimal digit, or 16.
fn hex_val_of(c: char) -> (r: u8)
    ensures
        (r < 16) == is_hex(c),
        r < 16 ==> r as int == hex_val(c),
{
    if c == '0' {
        0
    } else if c == '1' {
        1
    } else if c == '2' {
        2
    } else if c == '3' {
        3
    } else if c == '4' {
        4
    } else if c == '5' {
        5
    } else if c == '6' {
        6
    } else if c == '7' {
        7
    } else if c == '8' {
        8
    } else if c == '9' {
        9
    } else if c == 'a' {
        10
    } else if c == 'b' {
        11
    } else if c == 'c' {
        12
    } else if c == 'd' {
        13
    } else if c == 'e' {
        14
    } else if c == 'f' {
        15
    } else {
        16
    }
}

/// Parse a string body at `pos`; on success returns the string and the
/// position just past its closing quote.
fn px_string(input: &Vec<char>, pos: usize) -> (r: Option<(String, usize)>)
    requires
        pos <= input@.len(),
    ensures
        match r {
            Some(se) => pos <= se.1 <= input@.len() && p_string(input@.skip(pos as int)) == Some(
                (se.0@, se.1 - pos as int),
            ),
            None => p_string(input@.skip(pos as int)) is None,
        },
    decreases input@.len() - pos,
{
    let ghost t = input@.skip(pos as int);
    let len = input.len();
    if pos == len {
        return None;
    }
    let c = input[pos];
    proof {
        assert(t[0] == input@[pos as int]);
    }
    if c == '"' {
        let s = String::new();
        return Some((s, pos + 1));
    }
    if c == '\\' {
        if pos + 1 == len {
            return None;
        }
        let e = input[pos + 1];
        proof {
            assert(t[1] == input@[pos + 1]);
        }
        if e == '"' || e == '\\' {
            proof {
                lemma_skip_skip(input@, pos as int, 2);
            }
            match px_string(input, pos + 2) {
                None => None,
                Some((s, end)) => {
                    let mut outs = String::new();
                    push_char(&mut outs, e);
                    outs.append(s.as_str());
                    proof {
                        assert(outs@ =~= seq![t[1]] + s@);
                    }
                    Some((outs, end))
                },
            }
        } else if e == 'u' {
            if len - pos < 6 {
                return None;
            }
            let d2 = input[pos + 2];
            let d3 = input[pos + 3];
            let h1 = input[pos + 4];
            let h2 = input[pos + 5];
            proof {
                assert(t[2] == input@[pos + 2]);
                assert(t[3] == input@[pos + 3]);
                assert(t[4] == input@[pos + 4]);
                assert(t[5] == input@[pos + 5]);
            }
            if d2 != '0' || d3 != '0' {
                return None;
            }
            let v1 = hex_val_of(h1);
            let v2 = hex_val_of(h2);
            if v1 >= 16 || v2 >= 16 {
                return None;
            }
            let k: u8 = v1 * 16 + v2;
            let ch = k as char;
            proof {
                lemma_skip_skip(input@, pos as int, 6);
                assert(ch == ((hex_val(t[4]) * 16 + hex_val(t[5])) as char));
            }
            match px_string(input, pos + 6) {
                None => None,
                Some((s, end)) => {
                    let mut outs = String::new();
                    push_char(&mut outs, ch);
                    outs.append(s.as_str());
                    proof {
                        assert(outs@ =~= seq![((hex_val(t[4]) * 16 + hex_val(t[5])) as char)]
                            + s@);
                    }
                    Some((outs, end))
                },
            }
        } else {
            None
        }
    } else {
        proof {
            lemma_skip_skip(input@, pos as int, 1);
        }
        match px_string(input, pos + 1) {
            None => None,
            Some((s, end)) => {
                let mut outs = String::new();
                push_char(&mut outs, c);
                outs.append(s.as_str());
                proof {
                    assert(outs@ =~= seq![t[0]] + s@);
                }
                Some((outs, end))
            },
        }
    }
}

/// Parse the lines of an argument array at `pos`, closing bracket line
/// included; on success returns the arguments and the position just past it.
fn px_items(input: &Vec<char>, pos: usize) -> (r: Option<(Vec<String>, usize)>)
    requires
        pos <= input@.len(),
    ensures
        match r {
            Some(ve) => pos <= ve.1 <= input@.len() && p_items(input@.skip(pos as int)) == Some(
                (strs_view(ve.0@), ve.1 - pos as int),
            ),
            None => p_items(input@.skip(pos as int)) is None,
        },
    decreases input@.len() - pos,
{
    let ghost t = input@.skip(pos as int);
    let total = input.len();
    if !expect_lit(input, pos, "      \"") {
        return None;
    }
    proof {
        reveal_strlit("      \"");
        lemma_skip_skip(input@, pos as int, 7);
    }
    match px_string(input, pos + 7) {
        None => None,
        Some((s, end1)) => {
            let ghost n1 = end1 - (pos + 7);
            proof {
                lemma_p_string_bounds(t.skip(7));
                lemma_skip_skip(input@, pos as int, 7 + n1);
                assert(t.skip(7 + n1) == input@.skip(end1 as int));
            }
            if expect_lit(input, end1, ",\n") {
                proof {
                    reveal_strlit(",\n");
                    lemma_skip_skip(input@, end1 as int, 2);
                    assert(end1 + 2 <= total);
                }
                match px_items(input, end1 + 2) {
                    None => None,
                    Some((more, end2)) => {
                        let ghost ms = s@;
                        let ghost mv = more@;
                        let mut v = more;
                        v.insert(0, s);
                        proof {
                            assert(strs_view(v@) =~= seq![ms] + strs_view(mv)) by {
                                assert forall|j: int| 0 <= j < v@.len() implies strs_view(v@)[j]
                                    == (seq![ms] + strs_view(mv))[j] by {
                                    assert(strs_view(v@)[j] == v@[j]@);
                                    if j > 0 {
                                        assert(v@[j] == mv[j - 1]);
                                        assert(strs_view(mv)[j - 1] == mv[j - 1]@);
                                    }
                                }
                            }
                        }
                        Some((v, end2))
                    },
                }
            } else if expect_lit(input, end1, "\n    ]") {
                proof {
                    reveal_strlit("\n    ]");
                }
                let mut v: Vec<String> = Vec::new();
                v.push(s);
                proof {
                    assert(strs_view(v@) =~= seq![p_string(t.skip(7))->Some_0.0]);
                }
                Some((v, end1 + 6))
            } else {
                None
            }
        },
    }
}


/// Parse an argument array at `pos`, brackets included.
fn px_args(input: &Vec<char>, pos: usize) -> (r: Option<(Vec<String>, usize)>)
    requires
        pos <= input@.len(),
    ensures
        match r {
            Some(ve) => pos <= ve.1 <= input@.len() && p_args(input@.skip(pos as int)) == Some(
                (strs_view(ve.0@), ve.1 - pos as int),
            ),
            None => p_args(input@.skip(pos as int)) is None,
        },
{
    let ghost t = input@.skip(pos as int);
    let total = input.len();
    if expect_lit(input, pos, "[]") {
        proof {
            reveal_strlit("[]");
        }
        let v: Vec<String> = Vec::new();
        proof {
            assert(strs_view(v@) =~= Seq::<Seq<char>>::empty());
        }
        return Some((v, pos + 2));
    }
    if expect_lit(input, pos, "[\n") {
        proof {
            reveal_strlit("[\n");
            lemma_skip_skip(input@, pos as int, 2);
        }
        match px_items(input, pos + 2) {
            None => None,
            Some((v, end)) => Some((v, end)),
        }
    } else {
        None
    }
}

/// Parse one record object at `pos`.
fn px_record(input: &Vec<char>, pos: usize) -> (r: Option<(Record, usize)>)
    requires
        pos <= input@.len(),
    ensures
        match r {
            Some(re) => pos <= re.1 <= input@.len() && p_record(input@.skip(pos as int)) == Some(
                (re.0@, re.1 - pos as int),
            ),
            None => p_record(input@.skip(pos as int)) is None,
        },
{
    let ghost t = input@.skip(pos as int);
    proof {
        reveal(p_record);
    }
    let total = input.len();
    if !expect_lit(input, pos, "  {\n    \"directory\": \"") {
        return None;
    }
    let l1len: usize = 22;
    proof {
        reveal_strlit("  {\n    \"directory\": \"");
        assert(("  {\n    \"directory\": \""@).len() == 22);
        lemma_skip_skip(input@, pos as int, 22);
    }
    let p1 = pos + l1len;
    match px_string(input, p1) {
        None => None,
        Some((d, end1)) => {
            proof {
                lemma_p_string_bounds(t.skip(22));
                lemma_skip_skip(input@, pos + 22, end1 - (pos + 22));
            }
            if !expect_lit(input, end1, ",\n    \"file\": \"") {
                return None;
            }
            let l2len: usize = 15;
            proof {
                reveal_strlit(",\n    \"file\": \"");
                assert((",\n    \"file\": \""@).len() == 15);
                lemma_skip_skip(input@, end1 as int, 15);
            }
            let p2 = end1 + l2len;
            match px_string(input, p2) {
                None => None,
                Some((f, end2)) => {
                    proof {
                        lemma_p_string_bounds(input@.skip(p2 as int));
                        lemma_skip_skip(input@, p2 as int, end2 - p2);
                    }
                    if !expect_lit(input, end2, ",\n    \"arguments\": ") {
                        return None;
                    }
                    let l3len: usize = 19;
                    proof {
                        reveal_strlit(",\n    \"arguments\": ");
                        assert((",\n    \"arguments\": "@).len() == 19);
                        lemma_skip_skip(input@, end2 as int, 19);
                    }
                    let p3 = end2 + l3len;
                    match px_args(input, p3) {
                        None => None,
                        Some((args, end3)) => {
                            proof {
                                lemma_skip_skip(input@, p3 as int, end3 - p3);
                            }
                            if !expect_lit(input, end3, "\n  }") {
                                return None;
                            }
                            proof {
                                reveal_strlit("\n  }");
                                assert(("\n  }"@).len() == 4);
                            }
                            let rec = Record { directory: d, file: f, arguments: args };
                            proof {
                                assert(rec@ =~= p_record(t)->Some_0.0);
                            }
                            Some((rec, end3 + 4))
                        },
                    }
                },
            }
        },
    }
}

/// Parse one or more record objects at `pos`.
fn px_recs(input: &Vec<char>, pos: usize) -> (r: Option<(Vec<Record>, usize)>)
    requires
        pos <= input@.len(),
    ensures
        match r {
            Some(ve) => pos <= ve.1 <= input@.len() && p_recs(input@.skip(pos as int)) == Some(
                (rec_views(ve.0@), ve.1 - pos as int),
            ),
            None => p_recs(input@.skip(pos as int)) is None,
        },
    decreases input@.len() - pos,
{
    let ghost t = input@.skip(pos as int);
    let total = input.len();
    match px_record(input, pos) {
        None => None,
        Some((rec, end)) => {
            proof {
                lemma_skip_skip(input@, pos as int, end - pos);
            }
            if end == pos {
                // A record never parses from nothing; rule it out for the
                // specification's sanity guard.
                proof {
                    reveal(p_record);
                    reveal_strlit("  {\n    \"directory\": \"");
                    assert(begins(t, "  {\n    \"directory\": \""@));
                    assert(p_record(t)->Some_0.1 >= 22) by {
                        lemma_p_string_bounds(t.skip(22));
                    }
                }
                return None;
            }
            if expect_lit(input, end, ",\n") {
                proof {
                    reveal_strlit(",\n");
                    lemma_skip_skip(input@, end as int, 2);
                    assert(end + 2 <= total);
                }
                match px_recs(input, end + 2) {
                    None => None,
                    Some((more, end2)) => {
                        let ghost rm = rec@;
                        let ghost mv = more@;
                        let mut v = more;
                        v.insert(0, rec);
                        proof {
                            assert(rec_views(v@) =~= seq![rm] + rec_views(mv)) by {
                                assert forall|j: int| 0 <= j < v@.len() implies rec_views(v@)[j]
                                    == (seq![rm] + rec_views(mv))[j] by {
                                    assert(rec_views(v@)[j] == v@[j]@);
                                    if j > 0 {
                                        assert(v@[j] == mv[j - 1]);
                                        assert(rec_views(mv)[j - 1] == mv[j - 1]@);
                                    }
                                }
                            }
                        }
                        Some((v, end2))
                    },
                }
            } else {
                let ghost rm = rec@;
                let mut v: Vec<Record> = Vec::new();
                v.push(rec);
                proof {
                    assert(rec_views(v@) =~= seq![rm]);
                }
                Some((v, end))
            }
        },
    }
}

/// Adjacent order gives the full pairwise order.
proof fn lemma_span_sorted(s: Seq<RecordModel>, i: int, j: int)
    requires
        forall|k: int| 1 <= k < s.len() ==> rec_lt(#[trigger] s[k - 1], s[k]),
        0 <= i < j < s.len(),
    ensures
        rec_lt(s[i], s[j]),
    decreases j - i,
{
    if j == i + 1 {
        assert(rec_lt(s[j - 1], s[j]));
    } else {
        lemma_span_sorted(s, i, j - 1);
        assert(rec_lt(s[j - 1], s[j]));
        lemma_rec_lt_transitive(s[i], s[j - 1], s[j]);
    }
}

/// Parse a whole database file.  The content must be exactly the canonical
/// serialization of a database: anything else is a parse failure.
pub fn from_text(text: &str) -> (r: Result<Database, ParseError>)
    ensures
        match r {
            Ok(db) => db.wf() && loaded(text@) == Some(db.seq_model()),
            Err(_) => loaded(text@) is None,
        },
{
    let input = chars_of(text);
    let ghost t = input@;
    proof {
        assert(t.skip(0) =~= t);
        reveal_strlit("[]\n");
        reveal_strlit("[\n");
        reveal_strlit("\n]\n");
    }
    if input.len() == 3 && expect_lit(&input, 0, "[]\n") {
        proof {
            assert(t.take(3) =~= t);
            assert(t == "[]\n"@);
        }
        return Ok(Database::empty());
    }
    proof {
        if t == "[]\n"@ {
            assert(t.len() == 3);
            assert(begins(t.skip(0), "[]\n"@)) by {
                assert(t.take(3) =~= t);
            }
            assert(false);
        }
    }
    if !expect_lit(&input, 0, "[\n") {
        return Err(ParseError);
    }
    proof {
        lemma_skip_skip(t, 0, 2);
    }
    match px_recs(&input, 2) {
        None => Err(ParseError),
        Some((v, end)) => {
            proof {
                lemma_skip_skip(t, 2, end - 2);
            }
            let tail_ok = expect_lit(&input, end, "\n]\n");
            if !(tail_ok && end + 3 == input.len()) {
                proof {
                    if t.skip(2).skip(end - 2) == "\n]\n"@ {
                        assert(t.skip(end as int).len() == 3);
                        assert(begins(t.skip(end as int), "\n]\n"@)) by {
                            assert(t.skip(end as int).take(3) =~= t.skip(end as int));
                        }
                    }
                }
                return Err(ParseError);
            }
            proof {
                assert(t.skip(end as int) =~= "\n]\n"@) by {
                    assert(t.skip(end as int).len() == 3);
                    assert(t.skip(end as int).take(3) =~= t.skip(end as int));
                }
            }
            let db = Database { records: v };
            let n = db.records.len();
            proof {
                assert(db.seq_model() == rec_views(v@));
            }
            proof {
                assert(p_db(text@) == Some(db.seq_model()));
            }
            let mut i: usize = 1;
            while i < n
                invariant
                    1 <= i,
                    i <= n || n == 0,
                    n == db.seq_model().len(),
                    p_db(text@) == Some(db.seq_model()),
                    forall|k: int| 1 <= k < i ==> rec_lt(
                        #[trigger] db.seq_model()[k - 1],
                        db.seq_model()[k],
                    ),
                decreases n - i,
            {
                let c = rec_compare(&db.records[i - 1], &db.records[i]);
                if !matches!(c, Rank::Less) {
                    proof {
                        assert(db.seq_model()[i - 1] == db.records@[i - 1]@);
                        assert(db.seq_model()[i as int] == db.records@[i as int]@);
                        assert(!sorted_strict(db.seq_model()));
                    }
                    return Err(ParseError);
                }
                proof {
                    assert(db.seq_model()[i - 1] == db.records@[i - 1]@);
                    assert(db.seq_model()[i as int] == db.records@[i as int]@);
                }
                i = i + 1;
            }
            proof {
                assert forall|a: int, b: int|
                    0 <= a < b < db.seq_model().len() implies rec_lt(
                    db.seq_model()[a],
                    db.seq_model()[b],
                ) by {
                    lemma_span_sorted(db.seq_model(), a, b);
                }
            }
            Ok(db)
        },
    }
}


// ---------------------------------------------------------------------------
// Round trip: parsing a canonical serialization gives back the records.
// ---------------------------------------------------------------------------

/// Parsing an escaped string body followed by its closing quote gives the
/// original string back.
proof fn lemma_rt_string(s: Seq<char>, rest: Seq<char>)
    ensures
        p_string(esc(s) + seq!['"'] + rest) == Some((s, esc(s).len() + 1int)),
    decreases s.len(),
{
    let t = esc(s) + seq!['"'] + rest;
    if s.len() == 0 {
        assert(esc(s) == Seq::<char>::empty());
        assert(t[0] == '"');
        assert(p_string(t) == Some((Seq::<char>::empty(), 1int)));
        assert(s =~= Seq::<char>::empty());
    } else {
        let c = s[0];
        let s1 = s.drop_first();
        assert(esc(s) == esc_char(c) + esc(s1));
        let t1 = esc(s1) + seq!['"'] + rest;
        lemma_rt_string(s1, rest);
        let n1 = esc(s1).len() + 1;
        assert(seq![c] + s1 =~= s);
        if c == '"' || c == '\\' {
            assert(esc_char(c) =~= seq!['\\', c]);
            assert(t[0] == '\\');
            assert(t[1] == c);
            assert(t.len() >= 2);
            assert(t.skip(2) =~= t1);
            assert(p_string(t) == Some((seq![t[1]] + s1, n1 + 2int)));
            assert(seq![t[1]] + s1 == s);
            assert(esc(s).len() + 1 == n1 + 2);
        } else if ' ' > c {
            let v = c as u32;
            vstd::utf8::char_is_scalar(c);
            vstd::utf8::char_u32_cast(c, v);
            assert(v < 32);
            let hi = (v / 16) as int;
            let lo = (v % 16) as int;
            assert(0 <= hi < 2);
            assert(0 <= lo < 16);
            assert(t[0] == '\\');
            assert(t[1] == 'u');
            assert(t[2] == '0');
            assert(t[3] == '0');
            assert(t[4] == hex_digit(hi));
            assert(t[5] == hex_digit(lo));
            assert(t.len() >= 6);
            assert(hex_val(hex_digit(hi)) == hi);
            assert(hex_val(hex_digit(lo)) == lo);
            assert(is_hex(t[4]) && is_hex(t[5]));
            assert(t.skip(6) =~= t1);
            assert(hex_val(t[4]) * 16 + hex_val(t[5]) == v as int);
            assert((v as char) == c);
            assert(((v as int) as char) == c);
            assert(p_string(t) == Some((seq![c] + s1, n1 + 6int)));
            assert(esc(s).len() + 1 == n1 + 6);
        } else {
            assert(esc_char(c) =~= seq![c]);
            assert(t[0] == c);
            assert(t.skip(1) =~= t1);
            assert(p_string(t) == Some((seq![t[0]] + s1, n1 + 1int)));
            assert(esc(s).len() + 1 == n1 + 1);
        }
    }
}

/// Parsing serialized argument lines, closing bracket line included, gives
/// the original arguments back.
proof fn lemma_rt_items(args: Seq<Seq<char>>, rest: Seq<char>)
    requires
        args.len() >= 1,
    ensures
        p_items(ser_args_items(args) + "\n    ]"@ + rest) == Some(
            (args, ser_args_items(args).len() + 6int),
        ),
    decreases args.len(),
{
    reveal_strlit("      ");
    reveal_strlit("      \"");
    reveal_strlit(",\n");
    reveal_strlit("\n    ]");
    let t = ser_args_items(args) + "\n    ]"@ + rest;
    let a0 = args[0];
    let q0 = ser_string(a0);
    let tail: Seq<char> = if args.len() == 1 {
        "\n    ]"@ + rest
    } else {
        ",\n"@ + ser_args_items(args.drop_first()) + "\n    ]"@ + rest
    };
    assert(t =~= "      "@ + q0 + tail);
    assert(("      \""@) =~= "      "@ + seq!['"']);
    assert(begins(t, "      \""@)) by {
        assert(t.take(7) =~= "      \""@);
    }
    assert(t.len() >= 7);
    assert(t.skip(7) =~= esc(a0) + seq!['"'] + tail);
    lemma_rt_string(a0, tail);
    let n1 = esc(a0).len() + 1;
    assert(n1 >= 1);
    assert(t.len() - 7 - n1 == tail.len());
    let t2 = t.skip(7 + n1 as int);
    assert(t2 =~= tail);
    if args.len() == 1 {
        assert(!begins(t2, ",\n"@)) by {
            assert(tail[0] == '\n');
            if begins(t2, ",\n"@) {
                assert(t2.take(2)[0] == ',');
            }
        }
        assert(begins(t2, "\n    ]"@)) by {
            assert(t2.take(6) =~= "\n    ]"@);
        }
        assert(p_items(t) == Some((seq![a0], 7 + n1 + 6int)));
        assert(seq![a0] =~= args);
        assert(ser_args_items(args).len() == 6 + q0.len());
        assert(q0.len() == n1 + 1);
    } else {
        assert(begins(t2, ",\n"@)) by {
            assert(t2.take(2) =~= ",\n"@);
        }
        assert(t2.len() >= 2);
        assert(t2.skip(2) =~= ser_args_items(args.drop_first()) + "\n    ]"@ + rest);
        lemma_rt_items(args.drop_first(), rest);
        assert(p_items(t) == Some(
            (
                seq![a0] + args.drop_first(),
                7 + n1 + 2 + (ser_args_items(args.drop_first()).len() + 6int),
            ),
        ));
        assert(seq![a0] + args.drop_first() =~= args);
        assert(ser_args_items(args).len() == 6 + q0.len() + 2 + ser_args_items(
            args.drop_first(),
        ).len());
        assert(q0.len() == n1 + 1);
    }
}

/// Parsing a serialized argument array gives the original arguments back.
proof fn lemma_rt_args(args: Seq<Seq<char>>, rest: Seq<char>)
    ensures
        p_args(ser_args(args) + rest) == Some((args, ser_args(args).len() as int)),
{
    reveal_strlit("[]");
    reveal_strlit("[\n");
    reveal_strlit("\n    ]");
    let t = ser_args(args) + rest;
    if args.len() == 0 {
        assert(begins(t, "[]"@)) by {
            assert(t.take(2) =~= "[]"@);
        }
        assert(p_args(t) == Some((Seq::<Seq<char>>::empty(), 2int)));
        assert(args =~= Seq::<Seq<char>>::empty());
    } else {
        assert(t =~= "[\n"@ + (ser_args_items(args) + "\n    ]"@ + rest));
        assert(!begins(t, "[]"@)) by {
            assert(t[1] == '\n');
            if begins(t, "[]"@) {
                assert(t.take(2)[1] == ']');
            }
        }
        assert(begins(t, "[\n"@)) by {
            assert(t.take(2) =~= "[\n"@);
        }
        assert(t.len() >= 2);
        assert(t.skip(2) =~= ser_args_items(args) + "\n    ]"@ + rest);
        lemma_rt_items(args, rest);
        assert(p_args(t) == Some((args, 2 + ser_args_items(args).len() + 6int)));
        assert(ser_args(args).len() == 2 + ser_args_items(args).len() + 6);
    }
}

/// Parsing a serialized record object gives the original record back.
#[verifier::rlimit(100)]
#[verifier::spinoff_prover]
proof fn lemma_rt_record(r: RecordModel, rest: Seq<char>)
    ensures
        p_record(ser_record(r) + rest) == Some((r, ser_record(r).len() as int)),
{
    reveal(p_record);
    reveal_strlit("  {\n    \"directory\": ");
    reveal_strlit("  {\n    \"directory\": \"");
    reveal_strlit(",\n    \"file\": ");
    reveal_strlit(",\n    \"file\": \"");
    reveal_strlit(",\n    \"arguments\": ");
    reveal_strlit("\n  }");
    let t = ser_record(r) + rest;
    let l1 = "  {\n    \"directory\": \""@;
    let l2 = ",\n    \"file\": \""@;
    let l3 = ",\n    \"arguments\": "@;
    let l4 = "\n  }"@;
    let rest1 = ",\n    \"file\": "@ + ser_string(r.file) + l3 + ser_args(r.arguments) + l4
        + rest;
    assert(t =~= "  {\n    \"directory\": "@ + ser_string(r.directory) + rest1);
    assert(l1 =~= "  {\n    \"directory\": "@ + seq!['"']);
    assert(begins(t, l1)) by {
        assert(t.take(22) =~= l1);
    }
    let t1 = t.skip(l1.len() as int);
    assert(t1 =~= esc(r.directory) + seq!['"'] + rest1);
    lemma_rt_string(r.directory, rest1);
    let n1 = esc(r.directory).len() + 1;
    assert(0 <= n1 <= t1.len());
    let t2 = t1.skip(n1 as int);
    let rest2 = ",\n    \"arguments\": "@ + ser_args(r.arguments) + l4 + rest;
    assert(t2 =~= ",\n    \"file\": "@ + ser_string(r.file) + rest2);
    assert(l2 =~= ",\n    \"file\": "@ + seq!['"']);
    assert(begins(t2, l2)) by {
        assert(t2.take(15) =~= l2);
    }
    let t3 = t2.skip(l2.len() as int);
    assert(t3 =~= esc(r.file) + seq!['"'] + rest2);
    lemma_rt_string(r.file, rest2);
    let n2 = esc(r.file).len() + 1;
    assert(0 <= n2 <= t3.len());
    let t4 = t3.skip(n2 as int);
    assert(t4 =~= l3 + (ser_args(r.arguments) + (l4 + rest)));
    assert(begins(t4, l3)) by {
        assert(t4.take(19) =~= l3);
    }
    let t5 = t4.skip(l3.len() as int);
    assert(t5 =~= ser_args(r.arguments) + (l4 + rest));
    lemma_rt_args(r.arguments, l4 + rest);
    let n3 = ser_args(r.arguments).len() as int;
    assert(0 <= n3 <= t5.len());
    let t6 = t5.skip(n3);
    assert(t6 =~= l4 + rest);
    assert(begins(t6, l4)) by {
        assert(t6.take(4) =~= l4);
    }
    let got = p_record(t)->Some_0;
    assert(got.0 =~= r);
    assert(got.1 == l1.len() + n1 + l2.len() + n2 + l3.len() + n3 + l4.len());
    assert(ser_record(r).len() == 21 + (n1 + 1) + 14 + (n2 + 1) + 19 + n3 + 4);
}

/// A serialized record object is never shorter than its opening literal.
proof fn lemma_ser_record_len(r: RecordModel)
    ensures
        ser_record(r).len() >= 21,
{
    reveal_strlit("  {\n    \"directory\": ");
    assert(ser_record(r).len() >= ("  {\n    \"directory\": "@).len());
}

/// Parsing serialized record objects gives the original records back.
#[verifier::rlimit(100)]
#[verifier::spinoff_prover]
proof fn lemma_rt_recs(rs: Seq<RecordModel>, rest: Seq<char>)
    requires
        rs.len() >= 1,
        !begins(rest, ",\n"@),
    ensures
        p_recs(ser_recs(rs) + rest) == Some((rs, ser_recs(rs).len() as int)),
    decreases rs.len(),
{
    reveal_strlit(",\n");
    let t = ser_recs(rs) + rest;
    let r0 = rs[0];
    let tail: Seq<char> = if rs.len() == 1 {
        rest
    } else {
        ",\n"@ + ser_recs(rs.drop_first()) + rest
    };
    assert(t =~= ser_record(r0) + tail);
    lemma_rt_record(r0, tail);
    lemma_ser_record_len(r0);
    let n = ser_record(r0).len() as int;
    assert(0 <= n <= t.len());
    let t1 = t.skip(n);
    assert(t1 =~= tail);
    if rs.len() == 1 {
        assert(!begins(t1, ",\n"@));
        assert(p_recs(t) == Some((seq![r0], n)));
        assert(seq![r0] =~= rs);
    } else {
        assert(begins(t1, ",\n"@)) by {
            assert(t1.take(2) =~= ",\n"@);
        }
        assert(t1.len() >= 2);
        assert(t1.skip(2) =~= ser_recs(rs.drop_first()) + rest);
        lemma_rt_recs(rs.drop_first(), rest);
        assert(p_recs(t) == Some(
            (seq![r0] + rs.drop_first(), n + 2 + ser_recs(rs.drop_first()).len()),
        ));
        assert(seq![r0] + rs.drop_first() =~= rs);
        assert(ser_recs(rs).len() == ser_record(r0).len() + 2 + ser_recs(rs.drop_first()).len());
    }
}

/// Round trip: any record set, serialized in canonical order, parses back
/// to exactly the same records.
pub proof fn lemma_round_trip(rs: Seq<RecordModel>)
    requires
        sorted_strict(rs),
    ensures
        loaded(ser_db(rs)) == Some(rs),
{
    reveal_strlit("[]\n");
    reveal_strlit("[\n");
    reveal_strlit("\n]\n");
    reveal_strlit(",\n");
    let t = ser_db(rs);
    if rs.len() == 0 {
        assert(t == "[]\n"@);
        assert(p_db(t) == Some(Seq::<RecordModel>::empty()));
        assert(rs =~= Seq::<RecordModel>::empty());
    } else {
        assert(t =~= "[\n"@ + (ser_recs(rs) + "\n]\n"@));
        lemma_ser_record_len(rs[0]);
        assert(ser_recs(rs).len() >= 21) by {
            if rs.len() == 1 {
                assert(ser_recs(rs) == ser_record(rs[0]));
            }
        }
        assert(t != "[]\n"@) by {
            assert(t.len() >= 2 + 21 + 3);
        }
        assert(begins(t, "[\n"@)) by {
            assert(t.take(2) =~= "[\n"@);
        }
        assert(t.skip(2) =~= ser_recs(rs) + "\n]\n"@);
        assert(!begins("\n]\n"@, ",\n"@)) by {
            if begins("\n]\n"@, ",\n"@) {
                assert(("\n]\n"@).take(2)[0] == ',');
            }
        }
        lemma_rt_recs(rs, "\n]\n"@);
        let n = ser_recs(rs).len() as int;
        assert(0 <= n <= t.len() - 2);
        assert(t.skip(2).skip(n) =~= "\n]\n"@) by {
            assert(t.skip(2).skip(n) =~= t.skip(2 + n));
        }
        assert(p_db(t) == Some(rs));
    }
}

} // verus!
