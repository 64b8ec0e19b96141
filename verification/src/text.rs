//! Character-level utilities shared by the encoders: LTSV escaping,
//! lexicographic ordering of strings, and decimal rendering of integers.

use vstd::prelude::*;

verus! {

/// One character after LTSV escaping: newline and tab become a space,
/// a colon becomes an underscore, everything else is unchanged.
pub open spec fn escape_char(c: char) -> char {
    if c == '\n' || c == '\t' {
        ' '
    } else if c == ':' {
        '_'
    } else {
        c
    }
}

/// A field's text after LTSV escaping, applied character by character.
pub open spec fn escape_seq(s: Seq<char>) -> Seq<char> {
    s.map_values(|c: char| escape_char(c))
}

/// Escaping never introduces a newline, tab, or colon.
pub proof fn lemma_escape_clean(s: Seq<char>)
    ensures
        forall|i: int|
            0 <= i < escape_seq(s).len() ==> escape_seq(s)[i] != '\n' && escape_seq(s)[i] != '\t'
                && escape_seq(s)[i] != ':',
{
}

/// Escaping is idempotent: text that is already clean is left unchanged,
/// so escaping an escaped field changes nothing.
pub proof fn lemma_escape_idempotent(s: Seq<char>)
    ensures
        escape_seq(escape_seq(s)) == escape_seq(s),
{
    assert(escape_seq(escape_seq(s)) =~= escape_seq(s));
}

/// Text that holds no newline, tab, or colon is left unmodified.
pub proof fn lemma_escape_clean_identity(s: Seq<char>)
    requires
        forall|i: int| 0 <= i < s.len() ==> s[i] != '\n' && s[i] != '\t' && s[i] != ':',
    ensures
        escape_seq(s) == s,
{
    assert(escape_seq(s) =~= s);
}

proof fn lemma_escape_push(s: Seq<char>, c: char)
    ensures
        escape_seq(s.push(c)) == escape_seq(s).push(escape_char(c)),
{
    assert(escape_seq(s.push(c)) =~= escape_seq(s).push(escape_char(c)));
}

/// Escape one field, exactly as the escaping rule states it.
pub fn escape_string(field: &str) -> (res: String)
    ensures
        res@ == escape_seq(field@),
{
    let n = field.unicode_len();
    let mut out = String::new();
    let mut i: usize = 0;
    while i < n
        invariant
            n == field@.len(),
            i <= n,
            out@ == escape_seq(field@.subrange(0, i as int)),
        decreases n - i,
    {
        let ghost out_pre = out@;
        let ghost pre = field@.subrange(0, i as int);
        let c = field.get_char(i);
        if c == '\n' || c == '\t' {
            out.append(" ");
            proof {
                reveal_strlit(" ");
                assert(" "@ =~= seq![' ']);
                assert(out@ =~= out_pre.push(escape_char(c)));
            }
        } else if c == ':' {
            out.append("_");
            proof {
                reveal_strlit("_");
                assert("_"@ =~= seq!['_']);
                assert(out@ =~= out_pre.push(escape_char(c)));
            }
        } else {
            let piece = field.substring_char(i, i + 1);
            out.append(piece);
            proof {
                assert(piece@ =~= seq![c]);
                assert(out@ =~= out_pre.push(escape_char(c)));
            }
        }
        proof {
            assert(field@.subrange(0, i + 1 as int) =~= pre.push(c));
            lemma_escape_push(pre, c);
        }
        i = i + 1;
    }
    proof {
        assert(field@.subrange(0, n as int) =~= field@);
    }
    out
}

/// Whether two string slices hold the same characters.
pub fn str_eq(a: &str, b: &str) -> (r: bool)
    ensures
        r == (a@ == b@),
{
    let na = a.unicode_len();
    let nb = b.unicode_len();
    if na != nb {
        return false;
    }
    let mut i: usize = 0;
    while i < na
        invariant
            na == a@.len(),
            na == b@.len(),
            i <= na,
            forall|j: int| 0 <= j < i ==> a@[j] == b@[j],
        decreases na - i,
    {
        if a.get_char(i) != b.get_char(i) {
            return false;
        }
        i = i + 1;
    }
    proof {
        assert(a@ =~= b@);
    }
    true
}

/// Strict lexicographic order on character sequences, by Unicode scalar
/// value; the order in which the encoder emits its keys.
pub open spec fn lex_lt(a: Seq<char>, b: Seq<char>) -> bool
    decreases a.len(),
{
    if b.len() == 0 {
        false
    } else if a.len() == 0 {
        true
    } else if a[0] != b[0] {
        (a[0] as int) < (b[0] as int)
    } else {
        lex_lt(a.skip(1), b.skip(1))
    }
}

/// Of two sequences, exactly one of `a < b`, `a == b`, `b < a` holds.
pub proof fn lemma_lex_trichotomy(a: Seq<char>, b: Seq<char>)
    ensures
        lex_lt(a, b) || lex_lt(b, a) || a == b,
        lex_lt(a, b) ==> !lex_lt(b, a) && a != b,
        lex_lt(b, a) ==> !lex_lt(a, b) && a != b,
    decreases a.len(),
{
    if a.len() == 0 || b.len() == 0 {
        if a.len() == 0 && b.len() == 0 {
            assert(a =~= b);
        }
    } else if a[0] != b[0] {
    } else {
        lemma_lex_trichotomy(a.skip(1), b.skip(1));
        if !lex_lt(a, b) && !lex_lt(b, a) {
            assert(a.skip(1) == b.skip(1));
            assert forall|i: int| 0 <= i < a.len() implies a[i] == b[i] by {
                if i >= 1 {
                    assert(a[i] == a.skip(1)[i - 1]);
                    assert(b[i] == b.skip(1)[i - 1]);
                }
            }
            assert(a =~= b);
        }
    }
}

/// Lexicographic order is transitive.
pub proof fn lemma_lex_trans(a: Seq<char>, b: Seq<char>, c: Seq<char>)
    requires
        lex_lt(a, b),
        lex_lt(b, c),
    ensures
        lex_lt(a, c),
    decreases a.len(),
{
    if a.len() == 0 {
    } else if a[0] == b[0] && b[0] == c[0] {
        lemma_lex_trans(a.skip(1), b.skip(1), c.skip(1));
    }
}

/// If two sequences agree on their first `i` characters, their order is
/// decided by what follows.
proof fn lemma_lex_skip(a: Seq<char>, b: Seq<char>, i: int)
    requires
        0 <= i <= a.len(),
        0 <= i <= b.len(),
        forall|j: int| 0 <= j < i ==> a[j] == b[j],
    ensures
        lex_lt(a, b) == lex_lt(a.skip(i), b.skip(i)),
    decreases i,
{
    if i > 0 {
        assert(a.len() > 0 && b.len() > 0);
        assert(a[0] == b[0]);
        lemma_lex_skip(a.skip(1), b.skip(1), i - 1);
        assert(a.skip(1).skip(i - 1) =~= a.skip(i));
        assert(b.skip(1).skip(i - 1) =~= b.skip(i));
    } else {
        assert(a.skip(0) =~= a);
        assert(b.skip(0) =~= b);
    }
}

/// Compare two string slices in lexicographic order.
pub fn str_lt(a: &str, b: &str) -> (r: bool)
    ensures
        r == lex_lt(a@, b@),
{
    let na = a.unicode_len();
    let nb = b.unicode_len();
    let mut i: usize = 0;
    while i < na && i < nb
        invariant
            na == a@.len(),
            nb == b@.len(),
            i <= na,
            i <= nb,
            forall|j: int| 0 <= j < i ==> a@[j] == b@[j],
        decreases na - i,
    {
        let ca = a.get_char(i);
        let cb = b.get_char(i);
        if ca != cb {
            proof {
                lemma_lex_skip(a@, b@, i as int);
                assert(a@.skip(i as int)[0] == ca);
                assert(b@.skip(i as int)[0] == cb);
            }
            return ca < cb;
        }
        i = i + 1;
    }
    proof {
        lemma_lex_skip(a@, b@, i as int);
    }
    i < nb
}

/// Compare two owned strings in lexicographic order.
pub fn string_lt(a: &String, b: &String) -> (r: bool)
    ensures
        r == lex_lt(a@, b@),
{
    str_lt(a.as_str(), b.as_str())
}

/// The decimal digit character for a value below ten.
pub open spec fn dec_digit_char(d: nat) -> char {
    if d == 0 {
        '0'
    } else if d == 1 {
        '1'
    } else if d == 2 {
        '2'
    } else if d == 3 {
        '3'
    } else if d == 4 {
        '4'
    } else if d == 5 {
        '5'
    } else if d == 6 {
        '6'
    } else if d == 7 {
        '7'
    } else if d == 8 {
        '8'
    } else {
        '9'
    }
}

/// The decimal rendering of a natural number, most significant digit first,
/// with no leading zeros (zero itself renders as a single digit).
pub open spec fn dec_chars(n: nat) -> Seq<char>
    decreases n,
{
    if n < 10 {
        seq![dec_digit_char(n)]
    } else {
        dec_chars(n / 10).push(dec_digit_char(n % 10))
    }
}

/// The decimal rendering of a signed integer: a minus sign before the
/// magnitude when negative.
pub open spec fn int_chars(v: int) -> Seq<char> {
    if v >= 0 {
        dec_chars(v as nat)
    } else {
        seq!['-'] + dec_chars((-v) as nat)
    }
}

fn digit_str(d: u64) -> (r: &'static str)
    requires
        d < 10,
    ensures
        r@ == seq![dec_digit_char(d as nat)],
{
    proof {
        reveal_strlit("0");
        reveal_strlit("1");
        reveal_strlit("2");
        reveal_strlit("3");
        reveal_strlit("4");
        reveal_strlit("5");
        reveal_strlit("6");
        reveal_strlit("7");
        reveal_strlit("8");
        reveal_strlit("9");
    }
    let r = match d {
        0 => "0",
        1 => "1",
        2 => "2",
        3 => "3",
        4 => "4",
        5 => "5",
        6 => "6",
        7 => "7",
        8 => "8",
        _ => "9",
    };
    proof {
        assert(r@ =~= seq![dec_digit_char(d as nat)]);
    }
    r
}

/// Render an unsigned integer in decimal.
pub fn u64_to_string(n: u64) -> (s: String)
    ensures
        s@ == dec_chars(n as nat),
    decreases n,
{
    if n < 10 {
        String::from_str(digit_str(n))
    } else {
        let mut s = u64_to_string(n / 10);
        s.append(digit_str(n % 10));
        proof {
            assert(s@ =~= dec_chars(n as nat));
        }
        s
    }
}

/// Render a signed integer in decimal, with a leading minus when negative.
pub fn i64_to_string(v: i64) -> (s: String)
    ensures
        s@ == int_chars(v as int),
{
    proof {
        reveal_strlit("-");
    }
    if v >= 0 {
        u64_to_string(v as u64)
    } else {
        let mag: u64 = ((-(v + 1)) as u64) + 1;
        proof {
            assert(mag as int == -(v as int));
        }
        let mut s = String::from_str("-");
        let digits = u64_to_string(mag);
        s.append(digits.as_str());
        proof {
            assert(s@ =~= int_chars(v as int));
        }
        s
    }
}

} // verus!
