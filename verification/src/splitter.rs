//! Framing: turning a raw byte stream into discrete message frames.
//!
//! Each scheme is a pure function from the bytes read so far to the
//! complete frames they contain; a trailing partial frame is discarded,
//! never treated as complete. The surrounding connection loop feeds
//! bytes in and hands each frame to a decoder.

use vstd::prelude::*;
use crate::text::str_eq;

verus! {

/// The framing schemes a listener can be configured with.
#[derive(Clone, Copy, PartialEq, Eq, Structural, Debug)]
pub enum Framing {
    /// Frames delimited by a line feed.
    Line,
    /// Frames delimited by a NUL byte.
    Nul,
    /// Octet-counting: a decimal length, one space, then the payload.
    Syslen,
    /// Self-describing binary messages whose header encodes the length.
    Capnp,
}

impl Framing {
    /// Resolve a configured framing name once, at setup time; an
    /// unsupported name is rejected here so no later stage sees it.
    pub fn from_name(name: &str) -> (r: Option<Framing>)
        ensures
            name@ == "line"@ ==> r == Some(Framing::Line),
            name@ == "nul"@ ==> r == Some(Framing::Nul),
            name@ == "syslen"@ ==> r == Some(Framing::Syslen),
            name@ == "capnp"@ ==> r == Some(Framing::Capnp),
            name@ != "line"@ && name@ != "nul"@ && name@ != "syslen"@ && name@ != "capnp"@
                ==> r is None,
    {
        proof {
            reveal_strlit("line");
            reveal_strlit("nul");
            reveal_strlit("syslen");
            reveal_strlit("capnp");
            assert("line"@.len() == 4);
            assert("nul"@.len() == 3);
            assert("syslen"@.len() == 6);
            assert("capnp"@.len() == 5);
        }
        if str_eq(name, "line") {
            Some(Framing::Line)
        } else if str_eq(name, "nul") {
            Some(Framing::Nul)
        } else if str_eq(name, "syslen") {
            Some(Framing::Syslen)
        } else if str_eq(name, "capnp") {
            Some(Framing::Capnp)
        } else {
            None
        }
    }
}

/// The byte-sequence view of a list of owned frames.
pub open spec fn frames_view(frames: Seq<Vec<u8>>) -> Seq<Seq<u8>> {
    frames.map_values(|v: Vec<u8>| v@)
}

/// Whether the byte `d` occurs in `s`.
pub open spec fn has_byte(s: Seq<u8>, d: u8) -> bool {
    exists|i: int| 0 <= i < s.len() && s[i] == d
}

/// The index of the first occurrence of `d` in `s` (the length of `s`
/// when `d` does not occur).
pub open spec fn find_byte(s: Seq<u8>, d: u8) -> int
    decreases s.len(),
{
    if s.len() == 0 {
        0
    } else if s[0] == d {
        0
    } else {
        1 + find_byte(s.drop_first(), d)
    }
}

/// What `find_byte` finds: the first occurrence, within bounds.
pub proof fn lemma_find_byte(s: Seq<u8>, d: u8)
    ensures
        0 <= find_byte(s, d) <= s.len(),
        has_byte(s, d) <==> find_byte(s, d) < s.len(),
        find_byte(s, d) < s.len() ==> s[find_byte(s, d)] == d,
        forall|j: int| 0 <= j < find_byte(s, d) ==> s[j] != d,
    decreases s.len(),
{
    if s.len() == 0 {
    } else if s[0] == d {
    } else {
        let t = s.drop_first();
        lemma_find_byte(t, d);
        assert(forall|j: int| 0 <= j < t.len() ==> t[j] == s[j + 1]);
        if has_byte(s, d) {
            let w = choose|i: int| 0 <= i < s.len() && s[i] == d;
            assert(w >= 1);
            assert(t[w - 1] == d);
            assert(has_byte(t, d));
        }
        if has_byte(t, d) {
            let w = choose|i: int| 0 <= i < t.len() && t[i] == d;
            assert(s[w + 1] == d);
            assert(has_byte(s, d));
        }
        assert forall|j: int| 0 <= j < find_byte(s, d) implies s[j] != d by {
            if j >= 1 {
                assert(s[j] == t[j - 1]);
            }
        }
    }
}

#[via_fn]
proof fn delim_frames_decreases(s: Seq<u8>, d: u8) {
    if has_byte(s, d) {
        lemma_find_byte(s, d);
    }
}

/// The complete frames in `s` under delimiter framing: each frame is
/// the text before the next occurrence of `d`, the delimiter itself is
/// consumed, and a trailing run with no delimiter is discarded.
pub open spec fn delim_frames(s: Seq<u8>, d: u8) -> Seq<Seq<u8>>
    decreases s.len(),
    via delim_frames_decreases
{
    if has_byte(s, d) {
        seq![s.subrange(0, find_byte(s, d))] + delim_frames(
            s.subrange(find_byte(s, d) + 1, s.len() as int),
            d,
        )
    } else {
        Seq::empty()
    }
}

/// Where the first delimiter stands decides the first frame.
pub proof fn lemma_delim_frames_first(s: Seq<u8>, d: u8, i: int)
    requires
        0 <= i < s.len(),
        s[i] == d,
        forall|j: int| 0 <= j < i ==> s[j] != d,
    ensures
        delim_frames(s, d) == seq![s.subrange(0, i)] + delim_frames(
            s.subrange(i + 1, s.len() as int),
            d,
        ),
{
    lemma_find_byte(s, d);
    assert(has_byte(s, d));
    let f = find_byte(s, d);
    if f < i {
        assert(s[f] != d);
        assert(false);
    }
    if f > i {
        assert(s[i] != d);
        assert(false);
    }
}

/// A stream with no delimiter holds no complete frame.
pub proof fn lemma_delim_frames_none(s: Seq<u8>, d: u8)
    requires
        forall|j: int| 0 <= j < s.len() ==> s[j] != d,
    ensures
        delim_frames(s, d) == Seq::<Seq<u8>>::empty(),
{
    if has_byte(s, d) {
        let w = choose|i: int| 0 <= i < s.len() && s[i] == d;
        assert(s[w] != d);
        assert(false);
    }
}

/// Extract every complete delimiter-framed frame of `data`.
pub fn split_delim_frames(data: &[u8], d: u8) -> (frames: Vec<Vec<u8>>)
    ensures
        frames_view(frames@) == delim_frames(data@, d),
{
    let n = data.len();
    let mut frames: Vec<Vec<u8>> = Vec::new();
    let mut start: usize = 0;
    let mut i: usize = 0;
    proof {
        assert(frames_view(frames@) =~= Seq::<Seq<u8>>::empty());
        assert(data@.skip(0) =~= data@);
    }
    while i < n
        invariant
            start <= i <= n,
            n == data@.len(),
            forall|j: int| start <= j < i ==> data@[j] != d,
            frames_view(frames@) + delim_frames(data@.skip(start as int), d) == delim_frames(
                data@,
                d,
            ),
        decreases n - i,
    {
        if *vstd::slice::slice_index_get(data, i) == d {
            let frame = vstd::slice::slice_to_vec(vstd::slice::slice_subrange(data, start, i));
            frames.push(frame);
            proof {
                let rest = data@.skip(start as int);
                let k = i - start;
                assert forall|j: int| 0 <= j < k implies rest[j] != d by {
                    assert(rest[j] == data@[start + j]);
                }
                assert(rest[k] == data@[i as int]);
                lemma_delim_frames_first(rest, d, k);
                assert(rest.subrange(0, k) =~= data@.subrange(start as int, i as int));
                assert(rest.subrange(k + 1, rest.len() as int) =~= data@.skip(i + 1 as int));
                assert(frames_view(frames@) =~= frames_view(frames@.drop_last()).push(
                    data@.subrange(start as int, i as int),
                ));
                assert(frames_view(frames@) + delim_frames(data@.skip(i + 1 as int), d)
                    =~= (frames_view(frames@.drop_last()) + delim_frames(
                    data@.skip(start as int),
                    d,
                )));
            }
            start = i + 1;
        }
        i = i + 1;
    }
    proof {
        let rest = data@.skip(start as int);
        assert forall|j: int| 0 <= j < rest.len() implies rest[j] != d by {
            assert(rest[j] == data@[start + j]);
        }
        lemma_delim_frames_none(rest, d);
        assert(frames_view(frames@) + delim_frames(rest, d) =~= frames_view(frames@));
    }
    frames
}

/// The concatenation of `msgs`, each followed by one delimiter.
pub open spec fn delim_encode(msgs: Seq<Seq<u8>>, d: u8) -> Seq<u8>
    decreases msgs.len(),
{
    if msgs.len() == 0 {
        Seq::empty()
    } else {
        msgs[0] + seq![d] + delim_encode(msgs.drop_first(), d)
    }
}

/// Well-formed delimiter-framed messages: none contains the delimiter.
pub open spec fn delim_wf(msgs: Seq<Seq<u8>>, d: u8) -> bool {
    forall|m: int| 0 <= m < msgs.len() ==> !has_byte(#[trigger] msgs[m], d)
}

/// Framing round trip: a stream holding `msgs`, each correctly
/// terminated, followed by any remainder, splits into exactly `msgs`
/// followed by the frames of the remainder. With a remainder holding no
/// delimiter — a truncated final frame — the split is exactly `msgs`,
/// and the truncated tail is discarded without error.
pub proof fn lemma_delim_frames_round_trip(msgs: Seq<Seq<u8>>, d: u8, rest: Seq<u8>)
    requires
        delim_wf(msgs, d),
    ensures
        delim_frames(delim_encode(msgs, d) + rest, d) == msgs + delim_frames(rest, d),
    decreases msgs.len(),
{
    if msgs.len() == 0 {
        assert(delim_encode(msgs, d) + rest =~= rest);
        assert(msgs + delim_frames(rest, d) =~= delim_frames(rest, d));
    } else {
        let m0 = msgs[0];
        let s = delim_encode(msgs, d) + rest;
        let tail = delim_encode(msgs.drop_first(), d) + rest;
        assert(!has_byte(m0, d));
        assert(s =~= m0 + seq![d] + tail);
        assert(s[m0.len() as int] == d);
        assert forall|j: int| 0 <= j < m0.len() implies s[j] != d by {
            assert(s[j] == m0[j]);
            if s[j] == d {
                assert(has_byte(m0, d));
            }
        }
        lemma_delim_frames_first(s, d, m0.len() as int);
        assert(s.subrange(0, m0.len() as int) =~= m0);
        assert(s.subrange(m0.len() as int + 1, s.len() as int) =~= tail);
        assert(delim_wf(msgs.drop_first(), d)) by {
            assert(forall|m: int|
                0 <= m < msgs.drop_first().len() ==> msgs.drop_first()[m] == msgs[m + 1]);
        }
        lemma_delim_frames_round_trip(msgs.drop_first(), d, rest);
        assert(seq![m0] + (msgs.drop_first() + delim_frames(rest, d)) =~= msgs + delim_frames(
            rest,
            d,
        ));
    }
}

/// An ASCII decimal digit.
pub open spec fn is_digit(b: u8) -> bool {
    48 <= b <= 57
}

/// How many decimal digits `s` starts with.
pub open spec fn digit_run(s: Seq<u8>) -> nat
    decreases s.len(),
{
    if s.len() == 0 {
        0
    } else if !is_digit(s[0]) {
        0
    } else {
        1 + digit_run(s.drop_first())
    }
}

/// What `digit_run` counts: the maximal run of leading digits.
pub proof fn lemma_digit_run(s: Seq<u8>)
    ensures
        digit_run(s) <= s.len(),
        forall|j: int| 0 <= j < digit_run(s) ==> is_digit(s[j]),
        digit_run(s) < s.len() ==> !is_digit(s[digit_run(s) as int]),
    decreases s.len(),
{
    if s.len() == 0 || !is_digit(s[0]) {
    } else {
        let t = s.drop_first();
        lemma_digit_run(t);
        assert(forall|j: int| 0 <= j < t.len() ==> t[j] == s[j + 1]);
        assert forall|j: int| 0 <= j < digit_run(s) implies is_digit(s[j]) by {
            if j >= 1 {
                assert(s[j] == t[j - 1]);
            }
        }
    }
}

/// The number a decimal digit string denotes.
pub open spec fn dec_value(s: Seq<u8>) -> nat
    decreases s.len(),
{
    if s.len() == 0 {
        0
    } else {
        dec_value(s.drop_last()) * 10 + (if s.last() >= 48 {
            (s.last() - 48) as nat
        } else {
            0
        })
    }
}

/// Powers of ten.
pub open spec fn pow10(k: nat) -> nat
    decreases k,
{
    if k == 0 {
        1
    } else {
        10 * pow10((k - 1) as nat)
    }
}

/// A digit string of length `k` denotes a value below `pow10(k)`.
pub proof fn lemma_dec_value_upper(s: Seq<u8>)
    requires
        forall|j: int| 0 <= j < s.len() ==> is_digit(#[trigger] s[j]),
    ensures
        dec_value(s) < pow10(s.len()),
    decreases s.len(),
{
    if s.len() > 0 {
        assert(forall|j: int| 0 <= j < s.drop_last().len() ==> s.drop_last()[j] == s[j]);
        lemma_dec_value_upper(s.drop_last());
        assert(is_digit(s[s.len() - 1]));
        assert(s.last() == s[s.len() - 1]);
    }
}

/// `pow10` grows with its exponent.
pub proof fn lemma_pow10_mono(a: nat, b: nat)
    requires
        a <= b,
    ensures
        pow10(a) <= pow10(b),
        pow10(a) >= 1,
    decreases b,
{
    if b > 0 {
        if a == b {
            lemma_pow10_mono((a - 1) as nat, (b - 1) as nat);
        } else {
            lemma_pow10_mono(a, (b - 1) as nat);
        }
    }
}

/// The complete frames in `s` under octet-counting framing: a decimal
/// length, one space, then exactly that many payload bytes. The parse
/// stops — discarding the tail — at a missing or overlong length (more
/// than twenty digits cannot denote a length any machine holds), a
/// missing separator, or a payload the stream does not complete.
pub open spec fn syslen_frames(s: Seq<u8>) -> Seq<Seq<u8>>
    decreases s.len(),
{
    let k = digit_run(s);
    if k == 0 || k > 20 || k >= s.len() {
        Seq::empty()
    } else if s[k as int] != 32 {
        Seq::empty()
    } else {
        let n = dec_value(s.subrange(0, k as int));
        if s.len() < k + 1 + n {
            Seq::empty()
        } else {
            seq![s.subrange(k as int + 1, (k + 1 + n) as int)] + syslen_frames(
                s.skip((k + 1 + n) as int),
            )
        }
    }
}

/// Extract every complete octet-counted frame of `data`.
pub fn split_syslen_frames(data: &[u8]) -> (frames: Vec<Vec<u8>>)
    ensures
        frames_view(frames@) == syslen_frames(data@),
{
    let n = data.len();
    let mut frames: Vec<Vec<u8>> = Vec::new();
    let mut pos: usize = 0;
    proof {
        assert(frames_view(frames@) =~= Seq::<Seq<u8>>::empty());
        assert(data@.skip(0) =~= data@);
    }
    loop
        invariant
            pos <= n,
            n == data@.len(),
            frames_view(frames@) + syslen_frames(data@.skip(pos as int)) == syslen_frames(
                data@,
            ),
        ensures
            frames_view(frames@) == syslen_frames(data@),
        decreases n - pos,
    {
        let ghost rest = data@.skip(pos as int);
        proof {
            assert(forall|j: int| 0 <= j < rest.len() ==> rest[j] == data@[pos + j]);
        }
        // Scan the leading digit run, up to one digit past the longest
        // representable length.
        let mut k: usize = 0;
        loop
            invariant
                pos <= n,
                n == data@.len(),
                rest == data@.skip(pos as int),
                k <= 21,
                pos + k <= n,
                forall|j: int| 0 <= j < k ==> is_digit(#[trigger] rest[j]),
            ensures
                k <= 21,
                pos + k <= n,
                forall|j: int| 0 <= j < k ==> is_digit(#[trigger] rest[j]),
                k == 21 || pos + k == n || !is_digit(rest[k as int]),
            decreases n - pos - k,
        {
            if k >= 21 || pos + k >= n {
                break ;
            }
            let b = *vstd::slice::slice_index_get(data, pos + k);
            proof {
                assert(rest[k as int] == data@[pos + k]);
            }
            if !(48 <= b && b <= 57) {
                break ;
            }
            k = k + 1;
        }
        proof {
            lemma_digit_run(rest);
        }
        if k == 21 {
            // At least 21 leading digits: an overlong length prefix.
            proof {
                assert(digit_run(rest) >= 21) by {
                    if digit_run(rest) < 21 {
                        assert(is_digit(rest[digit_run(rest) as int]));
                    }
                }
                assert(syslen_frames(rest) =~= Seq::<Seq<u8>>::empty());
                assert(frames_view(frames@) + Seq::<Seq<u8>>::empty() =~= frames_view(frames@));
            }
            break ;
        }
        proof {
            assert(digit_run(rest) == k) by {
                if digit_run(rest) < k {
                    assert(is_digit(rest[digit_run(rest) as int]));
                }
                if digit_run(rest) > k {
                    assert(pos + k < n);
                    assert(is_digit(rest[k as int]));
                }
            }
        }
        if k == 0 || pos + k >= n {
            proof {
                assert(syslen_frames(rest) =~= Seq::<Seq<u8>>::empty());
                assert(frames_view(frames@) + Seq::<Seq<u8>>::empty() =~= frames_view(frames@));
            }
            break ;
        }
        let sep = *vstd::slice::slice_index_get(data, pos + k);
        proof {
            assert(rest[k as int] == data@[pos + k]);
        }
        if sep != 32 {
            proof {
                assert(syslen_frames(rest) =~= Seq::<Seq<u8>>::empty());
                assert(frames_view(frames@) + Seq::<Seq<u8>>::empty() =~= frames_view(frames@));
            }
            break ;
        }
        // Parse the length; twenty digits at most, so a u128 holds it.
        let ghost digits = rest.subrange(0, k as int);
        let mut val: u128 = 0;
        let mut j: usize = 0;
        proof {
            assert(digits.subrange(0, 0) =~= Seq::<u8>::empty());
            reveal_with_fuel(pow10, 22);
            assert(pow10(21) == 1000000000000000000000);
        }
        while j < k
            invariant
                j <= k,
                k <= 20,
                pos + k <= n,
                n == data@.len(),
                rest == data@.skip(pos as int),
                digits == rest.subrange(0, k as int),
                forall|jj: int| 0 <= jj < k ==> is_digit(#[trigger] rest[jj]),
                val == dec_value(digits.subrange(0, j as int)),
                val < pow10(j as nat),
            decreases k - j,
        {
            let b = *vstd::slice::slice_index_get(data, pos + j);
            proof {
                assert(rest[j as int] == data@[pos + j]);
                assert(digits[j as int] == rest[j as int]);
                assert(is_digit(rest[j as int]));
                lemma_pow10_mono(j as nat, 19);
                reveal_with_fuel(pow10, 22);
                assert(pow10(19) == 10000000000000000000);
                assert(val < 10000000000000000000);
            }
            val = val * 10 + (b - 48) as u128;
            proof {
                assert(digits.subrange(0, j + 1 as int) =~= digits.subrange(0, j as int).push(
                    digits[j as int],
                ));
                assert(digits.subrange(0, j + 1 as int).drop_last() =~= digits.subrange(
                    0,
                    j as int,
                ));
            }
            j = j + 1;
        }
        proof {
            assert(digits.subrange(0, k as int) =~= digits);
        }
        let avail = n - pos - k - 1;
        if val > avail as u128 {
            proof {
                assert(rest.len() < k + 1 + dec_value(digits));
                assert(syslen_frames(rest) =~= Seq::<Seq<u8>>::empty());
                assert(frames_view(frames@) + Seq::<Seq<u8>>::empty() =~= frames_view(frames@));
            }
            break ;
        }
        let flen = val as usize;
        let frame = vstd::slice::slice_to_vec(
            vstd::slice::slice_subrange(data, pos + k + 1, pos + k + 1 + flen),
        );
        frames.push(frame);
        proof {
            let nval = dec_value(digits);
            assert(rest.len() >= k + 1 + nval);
            assert(syslen_frames(rest) == seq![rest.subrange(k as int + 1, (k + nval + 1) as int)]
                + syslen_frames(rest.skip((k + 1 + nval) as int)));
            assert(rest.subrange(k as int + 1, (k + nval + 1) as int) =~= data@.subrange(
                pos + k + 1,
                pos + k + 1 + flen,
            ));
            assert(rest.skip((k + 1 + nval) as int) =~= data@.skip((pos + k + 1 + flen) as int));
            assert(frames_view(frames@) =~= frames_view(frames@.drop_last()).push(
                data@.subrange(pos + k + 1, pos + k + 1 + flen),
            ));
            assert(frames_view(frames@) + syslen_frames(data@.skip((pos + k + 1 + flen) as int))
                =~= frames_view(frames@.drop_last()) + syslen_frames(rest));
        }
        pos = pos + k + 1 + flen;
    }
    frames
}

/// The decimal digit string of a number, most significant digit first.
pub open spec fn dec_digits(n: nat) -> Seq<u8>
    decreases n,
{
    if n < 10 {
        seq![(48 + n) as u8]
    } else {
        dec_digits(n / 10).push((48 + n % 10) as u8)
    }
}

/// The digit string of `n` denotes `n`, consists of digits, and fits in
/// `k` digits whenever `n < pow10(k)`.
pub proof fn lemma_dec_digits(n: nat)
    ensures
        dec_value(dec_digits(n)) == n,
        forall|j: int| 0 <= j < dec_digits(n).len() ==> is_digit(#[trigger] dec_digits(n)[j]),
        dec_digits(n).len() >= 1,
        forall|k: nat| n < pow10(k) && k >= 1 ==> dec_digits(n).len() <= k,
    decreases n,
{
    if n < 10 {
        let d = dec_digits(n);
        assert(d.drop_last() =~= Seq::<u8>::empty());
        assert(d.last() == (48 + n) as u8);
        assert((48 + n) as u8 == 48 + n);
        assert(dec_value(Seq::<u8>::empty()) == 0);
        assert(dec_value(d) == dec_value(d.drop_last()) * 10 + (d.last() - 48));
        assert(dec_value(d) == n);
        assert forall|k: nat| n < pow10(k) && k >= 1 implies d.len() <= k by {
        }
    } else {
        lemma_dec_digits(n / 10);
        let d = dec_digits(n);
        let dd = dec_digits(n / 10);
        assert(d.drop_last() =~= dd);
        assert(d.last() == (48 + n % 10) as u8);
        assert((48 + n % 10) as u8 == 48 + n % 10);
        assert(dec_value(d) == dec_value(dd) * 10 + n % 10);
        assert forall|j: int| 0 <= j < d.len() implies is_digit(#[trigger] d[j]) by {
            if j < dd.len() {
                assert(d[j] == dd[j]);
            }
        }
        assert forall|k: nat| n < pow10(k) && k >= 1 implies d.len() <= k by {
            assert(pow10(k) == 10 * pow10((k - 1) as nat));
            assert(n / 10 < pow10((k - 1) as nat));
            if k == 1 {
                lemma_pow10_mono(0, 0);
                assert(n < 10);
            } else {
                assert(dd.len() <= (k - 1) as nat);
            }
        }
    }
}

/// One octet-counted encoding: the payload length in decimal, a space,
/// then the payload.
pub open spec fn syslen_encode_one(msg: Seq<u8>) -> Seq<u8> {
    dec_digits(msg.len()) + seq![32u8] + msg
}

/// The concatenation of the encodings of `msgs`.
pub open spec fn syslen_encode(msgs: Seq<Seq<u8>>) -> Seq<u8>
    decreases msgs.len(),
{
    if msgs.len() == 0 {
        Seq::empty()
    } else {
        syslen_encode_one(msgs[0]) + syslen_encode(msgs.drop_first())
    }
}

/// Every message short enough that its length has a decimal form of at
/// most twenty digits.
pub open spec fn syslen_wf(msgs: Seq<Seq<u8>>) -> bool {
    forall|m: int| 0 <= m < msgs.len() ==> (#[trigger] msgs[m]).len() < pow10(20)
}

/// Framing round trip for octet counting: a stream holding the
/// encodings of `msgs` followed by any remainder splits into exactly
/// `msgs` followed by the frames of the remainder; a truncated final
/// encoding in the remainder is discarded without error.
pub proof fn lemma_syslen_frames_round_trip(msgs: Seq<Seq<u8>>, rest: Seq<u8>)
    requires
        syslen_wf(msgs),
    ensures
        syslen_frames(syslen_encode(msgs) + rest) == msgs + syslen_frames(rest),
    decreases msgs.len(),
{
    if msgs.len() == 0 {
        assert(syslen_encode(msgs) + rest =~= rest);
        assert(msgs + syslen_frames(rest) =~= syslen_frames(rest));
    } else {
        let m0 = msgs[0];
        let digits = dec_digits(m0.len());
        let s = syslen_encode(msgs) + rest;
        let tail = syslen_encode(msgs.drop_first()) + rest;
        lemma_dec_digits(m0.len());
        let dk = digits.len();
        assert(s =~= digits + seq![32u8] + m0 + tail);
        assert(dk <= 20);
        assert forall|j: int| 0 <= j < dk implies is_digit(#[trigger] s[j]) by {
            assert(s[j] == digits[j]);
        }
        assert(s[dk as int] == 32);
        lemma_digit_run(s);
        assert(digit_run(s) == dk) by {
            if digit_run(s) < dk {
                assert(is_digit(s[digit_run(s) as int]));
            }
            if digit_run(s) > dk {
                assert(is_digit(s[dk as int]));
            }
        }
        assert(s.subrange(0, dk as int) =~= digits);
        assert(s.len() >= dk + 1 + m0.len());
        assert(syslen_frames(s) == seq![s.subrange(dk as int + 1, (dk + 1 + m0.len()) as int)]
            + syslen_frames(s.skip((dk + 1 + m0.len()) as int)));
        assert(s.subrange(dk as int + 1, (dk + 1 + m0.len()) as int) =~= m0);
        assert(s.skip((dk + 1 + m0.len()) as int) =~= tail);
        assert(syslen_wf(msgs.drop_first())) by {
            assert(forall|m: int|
                0 <= m < msgs.drop_first().len() ==> msgs.drop_first()[m] == msgs[m + 1]);
        }
        lemma_syslen_frames_round_trip(msgs.drop_first(), rest);
        assert(seq![m0] + (msgs.drop_first() + syslen_frames(rest)) =~= msgs + syslen_frames(
            rest,
        ));
    }
}

/// The little-endian 32-bit value at offset `i`.
pub open spec fn le32(s: Seq<u8>, i: int) -> nat {
    (s[i] as nat) + 256 * (s[i + 1] as nat) + 65536 * (s[i + 2] as nat) + 16777216 * (s[i
        + 3] as nat)
}

/// The sum of `count` consecutive little-endian 32-bit segment sizes,
/// in eight-byte words, starting at offset `base`.
pub open spec fn seg_words_sum(s: Seq<u8>, base: int, count: nat) -> nat
    decreases count,
{
    if count == 0 {
        0
    } else {
        le32(s, base) + seg_words_sum(s, base + 4, (count - 1) as nat)
    }
}

/// The length of the self-describing binary message at the head of
/// `s`, when `s` holds it completely: the header names one less than
/// the segment count, then one 32-bit size per segment, padded to an
/// eight-byte boundary, then the segment data itself.
pub open spec fn capnp_msg_len(s: Seq<u8>) -> Option<nat> {
    if s.len() < 4 {
        None
    } else {
        let segs = le32(s, 0) + 1;
        if s.len() < 4 + 4 * segs {
            None
        } else {
            let header = 8 * ((segs + 2) / 2);
            let total = header + 8 * seg_words_sum(s, 4, segs);
            if s.len() < total {
                None
            } else {
                Some(total)
            }
        }
    }
}

/// A complete message is never empty: its header alone is eight bytes.
pub proof fn lemma_capnp_msg_len_pos(s: Seq<u8>)
    requires
        capnp_msg_len(s) is Some,
    ensures
        8 <= capnp_msg_len(s)->0 <= s.len(),
{
    let segs = le32(s, 0) + 1;
    assert(segs >= 1);
    assert((segs + 2) / 2 >= 1);
}

#[via_fn]
proof fn capnp_frames_decreases(s: Seq<u8>) {
    if capnp_msg_len(s) is Some {
        lemma_capnp_msg_len_pos(s);
    }
}

/// The complete self-describing messages at the head of `s`, each taken
/// whole, header included; a trailing incomplete message is discarded.
pub open spec fn capnp_frames(s: Seq<u8>) -> Seq<Seq<u8>>
    decreases s.len(),
    via capnp_frames_decreases
{
    match capnp_msg_len(s) {
        Some(n) => seq![s.subrange(0, n as int)] + capnp_frames(s.skip(n as int)),
        None => Seq::empty(),
    }
}

/// Reading the header is reading a prefix: appending bytes to a stream
/// that already holds a complete message changes nothing about it.
pub proof fn lemma_capnp_prefix(m: Seq<u8>, rest: Seq<u8>)
    requires
        capnp_msg_len(m) == Some(m.len() as nat),
    ensures
        capnp_msg_len(m + rest) == Some(m.len() as nat),
{
    let s = m + rest;
    let segs = le32(m, 0) + 1;
    assert(le32(s, 0) == le32(m, 0));
    assert(4 + 4 * segs <= m.len());
    lemma_seg_words_sum_prefix(m, rest, 4, segs);
}

proof fn lemma_seg_words_sum_prefix(m: Seq<u8>, rest: Seq<u8>, base: int, count: nat)
    requires
        0 <= base,
        base + 4 * count <= m.len(),
    ensures
        seg_words_sum(m + rest, base, count) == seg_words_sum(m, base, count),
    decreases count,
{
    if count > 0 {
        assert(le32(m + rest, base) == le32(m, base));
        lemma_seg_words_sum_prefix(m, rest, base + 4, (count - 1) as nat);
    }
}

/// Read the little-endian 32-bit value at `i`.
fn read_le32(data: &[u8], i: usize) -> (r: u32)
    requires
        i + 4 <= data@.len() <= usize::MAX,
    ensures
        r as nat == le32(data@, i as int),
{
    let b0 = *vstd::slice::slice_index_get(data, i) as u32;
    let b1 = *vstd::slice::slice_index_get(data, i + 1) as u32;
    let b2 = *vstd::slice::slice_index_get(data, i + 2) as u32;
    let b3 = *vstd::slice::slice_index_get(data, i + 3) as u32;
    b0 + b1 * 256 + b2 * 65536 + b3 * 16777216
}

/// Extract every complete self-describing message of `data`.
pub fn split_capnp_frames(data: &[u8]) -> (frames: Vec<Vec<u8>>)
    ensures
        frames_view(frames@) == capnp_frames(data@),
{
    let n = data.len();
    let mut frames: Vec<Vec<u8>> = Vec::new();
    let mut pos: usize = 0;
    proof {
        assert(frames_view(frames@) =~= Seq::<Seq<u8>>::empty());
        assert(data@.skip(0) =~= data@);
    }
    loop
        invariant
            pos <= n,
            n == data@.len(),
            frames_view(frames@) + capnp_frames(data@.skip(pos as int)) == capnp_frames(data@),
        ensures
            frames_view(frames@) == capnp_frames(data@),
        decreases n - pos,
    {
        let ghost rest = data@.skip(pos as int);
        proof {
            assert(forall|j: int| 0 <= j < rest.len() ==> rest[j] == data@[pos + j]);
        }
        if n - pos < 4 {
            proof {
                assert(capnp_frames(rest) =~= Seq::<Seq<u8>>::empty());
                assert(frames_view(frames@) + Seq::<Seq<u8>>::empty() =~= frames_view(frames@));
            }
            break ;
        }
        let first = read_le32(data, pos);
        proof {
            assert(le32(data@, pos as int) == le32(rest, 0)) by {
                assert(rest[0] == data@[pos as int]);
                assert(rest[1] == data@[pos + 1]);
                assert(rest[2] == data@[pos + 2]);
                assert(rest[3] == data@[pos + 3]);
            }
        }
        let segs: u64 = first as u64 + 1;
        let entries_end: u64 = 4 + 4 * segs;
        if ((n - pos) as u64) < entries_end {
            proof {
                assert(capnp_frames(rest) =~= Seq::<Seq<u8>>::empty());
                assert(frames_view(frames@) + Seq::<Seq<u8>>::empty() =~= frames_view(frames@));
            }
            break ;
        }
        let header: u64 = 8 * ((segs + 2) / 2);
        let mut sum: u128 = 0;
        let mut i: u64 = 0;
        while i < segs
            invariant
                i <= segs,
                segs == le32(rest, 0) + 1,
                segs <= 4294967296,
                pos + 4 + 4 * segs <= n,
                n == data@.len(),
                rest == data@.skip(pos as int),
                sum == seg_words_sum(rest, 4, i as nat),
                sum <= i * 4294967295,
            decreases segs - i,
        {
            let v = read_le32(data, pos + 4 + 4 * (i as usize));
            proof {
                let base = 4 + 4 * (i as int);
                assert(le32(data@, pos + base) == le32(rest, base)) by {
                    assert(rest[base] == data@[pos + base]);
                    assert(rest[base + 1] == data@[pos + base + 1]);
                    assert(rest[base + 2] == data@[pos + base + 2]);
                    assert(rest[base + 3] == data@[pos + base + 3]);
                }
                assert(le32(rest, base) <= 4294967295);
                lemma_seg_words_sum_step(rest, 4, (i + 1) as nat);
            }
            sum = sum + v as u128;
            i = i + 1;
        }
        let total: u128 = header as u128 + 8 * sum;
        if total > (n - pos) as u128 {
            proof {
                assert(capnp_frames(rest) =~= Seq::<Seq<u8>>::empty());
                assert(frames_view(frames@) + Seq::<Seq<u8>>::empty() =~= frames_view(frames@));
            }
            break ;
        }
        let flen = total as usize;
        let frame = vstd::slice::slice_to_vec(vstd::slice::slice_subrange(data, pos, pos + flen));
        frames.push(frame);
        proof {
            assert(capnp_msg_len(rest) == Some(flen as nat));
            assert(capnp_frames(rest) == seq![rest.subrange(0, flen as int)] + capnp_frames(
                rest.skip(flen as int),
            ));
            assert(rest.subrange(0, flen as int) =~= data@.subrange(pos as int, pos + flen));
            assert(rest.skip(flen as int) =~= data@.skip((pos + flen) as int));
            assert(frames_view(frames@) =~= frames_view(frames@.drop_last()).push(
                data@.subrange(pos as int, pos + flen),
            ));
            assert(frames_view(frames@) + capnp_frames(data@.skip((pos + flen) as int))
                =~= frames_view(frames@.drop_last()) + capnp_frames(rest));
            assert(flen >= 8) by {
                lemma_capnp_msg_len_pos(rest);
            }
        }
        pos = pos + flen;
    }
    frames
}

proof fn lemma_seg_words_sum_step(s: Seq<u8>, base: int, count: nat)
    requires
        count >= 1,
    ensures
        seg_words_sum(s, base, count) == seg_words_sum(s, base, (count - 1) as nat) + le32(
            s,
            base + 4 * (count - 1),
        ),
    decreases count,
{
    if count == 1 {
        assert(seg_words_sum(s, base, 1) == le32(s, base) + seg_words_sum(s, base + 4, 0));
        assert(seg_words_sum(s, base + 4, 0) == 0);
        assert(seg_words_sum(s, base, 0) == 0);
    } else {
        lemma_seg_words_sum_step(s, base + 4, (count - 1) as nat);
        assert(seg_words_sum(s, base, count) == le32(s, base) + seg_words_sum(
            s,
            base + 4,
            (count - 1) as nat,
        ));
        assert(seg_words_sum(s, base, (count - 1) as nat) == le32(s, base) + seg_words_sum(
            s,
            base + 4,
            (count - 2) as nat,
        ));
        assert(base + 4 + 4 * (count - 2) == base + 4 * (count - 1));
    }
}

/// Messages that are complete on their own: the header-declared length
/// is the message's own length.
pub open spec fn capnp_wf(msgs: Seq<Seq<u8>>) -> bool {
    forall|m: int|
        0 <= m < msgs.len() ==> capnp_msg_len(#[trigger] msgs[m]) == Some(msgs[m].len() as nat)
}

/// The concatenation of `msgs`.
pub open spec fn capnp_encode(msgs: Seq<Seq<u8>>) -> Seq<u8>
    decreases msgs.len(),
{
    if msgs.len() == 0 {
        Seq::empty()
    } else {
        msgs[0] + capnp_encode(msgs.drop_first())
    }
}

/// Framing round trip for self-describing messages: a stream holding
/// `msgs` back to back, followed by any remainder, splits into exactly
/// `msgs` followed by the frames of the remainder; a truncated final
/// message in the remainder is discarded without error.
pub proof fn lemma_capnp_frames_round_trip(msgs: Seq<Seq<u8>>, rest: Seq<u8>)
    requires
        capnp_wf(msgs),
    ensures
        capnp_frames(capnp_encode(msgs) + rest) == msgs + capnp_frames(rest),
    decreases msgs.len(),
{
    if msgs.len() == 0 {
        assert(capnp_encode(msgs) + rest =~= rest);
        assert(msgs + capnp_frames(rest) =~= capnp_frames(rest));
    } else {
        let m0 = msgs[0];
        let s = capnp_encode(msgs) + rest;
        let tail = capnp_encode(msgs.drop_first()) + rest;
        assert(s =~= m0 + tail);
        lemma_capnp_prefix(m0, tail);
        assert(capnp_msg_len(s) == Some(m0.len() as nat));
        assert(capnp_frames(s) == seq![s.subrange(0, m0.len() as int)] + capnp_frames(
            s.skip(m0.len() as int),
        ));
        assert(s.subrange(0, m0.len() as int) =~= m0);
        assert(s.skip(m0.len() as int) =~= tail);
        assert(capnp_wf(msgs.drop_first())) by {
            assert(forall|m: int|
                0 <= m < msgs.drop_first().len() ==> msgs.drop_first()[m] == msgs[m + 1]);
        }
        lemma_capnp_frames_round_trip(msgs.drop_first(), rest);
        assert(seq![m0] + (msgs.drop_first() + capnp_frames(rest)) =~= msgs + capnp_frames(
            rest,
        ));
    }
}

/// The complete frames of a byte stream under the given scheme.
pub open spec fn spec_frames(framing: Framing, s: Seq<u8>) -> Seq<Seq<u8>> {
    match framing {
        Framing::Line => delim_frames(s, 10),
        Framing::Nul => delim_frames(s, 0),
        Framing::Syslen => syslen_frames(s),
        Framing::Capnp => capnp_frames(s),
    }
}

/// Extract every complete frame of `data` under the given scheme. The
/// four schemes are substitutable here: the connection loop picks one
/// at setup time and never looks at it again.
pub fn split_frames(framing: Framing, data: &[u8]) -> (frames: Vec<Vec<u8>>)
    ensures
        frames_view(frames@) == spec_frames(framing, data@),
{
    match framing {
        Framing::Line => split_delim_frames(data, 10),
        Framing::Nul => split_delim_frames(data, 0),
        Framing::Syslen => split_syslen_frames(data),
        Framing::Capnp => split_capnp_frames(data),
    }
}

} // verus!
