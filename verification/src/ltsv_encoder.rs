//! The LTSV encoder: one line of label-tab-separated `key:value` text
//! per record, keys in ascending lexical order, duplicate keys resolved
//! by last write wins, every key and value escaped.

use vstd::prelude::*;
use crate::config::{Config, ConfigError, ConfigValue, spec_lookup};
use crate::record::{Record, SDValue, sd_value_chars, sd_value_string};
use crate::text::{
    escape_seq, escape_string, lex_lt, str_eq, string_lt, u64_to_string, lemma_lex_trichotomy,
    lemma_lex_trans,
};

verus! {

/// The character-level view of a list of owned key/value pairs.
pub open spec fn pairs_view(v: Seq<(String, String)>) -> Seq<(Seq<char>, Seq<char>)> {
    v.map_values(|p: (String, String)| (p.0@, p.1@))
}

/// Keys strictly ascending: each key is lexicographically below every
/// later one, so keys are also pairwise distinct.
pub open spec fn strictly_sorted(ps: Seq<(Seq<char>, Seq<char>)>) -> bool {
    forall|i: int, j: int| 0 <= i < j < ps.len() ==> lex_lt(ps[i].0, ps[j].0)
}

/// Insertion into a key-sorted pair list: a pair with a fresh key goes
/// to its ordered place, a pair with a present key overwrites the value.
pub open spec fn sorted_insert(
    ps: Seq<(Seq<char>, Seq<char>)>,
    k: Seq<char>,
    v: Seq<char>,
) -> Seq<(Seq<char>, Seq<char>)>
    decreases ps.len(),
{
    if ps.len() == 0 {
        seq![(k, v)]
    } else if lex_lt(k, ps[0].0) {
        seq![(k, v)] + ps
    } else if k == ps[0].0 {
        seq![(k, v)] + ps.drop_first()
    } else {
        seq![ps[0]] + sorted_insert(ps.drop_first(), k, v)
    }
}

/// Every pair of the insertion's result is the inserted pair or one of
/// the original pairs.
pub proof fn lemma_sorted_insert_elems(ps: Seq<(Seq<char>, Seq<char>)>, k: Seq<char>, v: Seq<char>)
    ensures
        forall|j: int|
            0 <= j < sorted_insert(ps, k, v).len() ==> sorted_insert(ps, k, v)[j] == (k, v)
                || ps.contains(sorted_insert(ps, k, v)[j]),
    decreases ps.len(),
{
    let res = sorted_insert(ps, k, v);
    if ps.len() == 0 {
    } else if lex_lt(k, ps[0].0) {
        assert forall|j: int| 0 <= j < res.len() implies res[j] == (k, v) || ps.contains(
            res[j],
        ) by {
            if j >= 1 {
                assert(res[j] == ps[j - 1]);
            }
        }
    } else if k == ps[0].0 {
        assert forall|j: int| 0 <= j < res.len() implies res[j] == (k, v) || ps.contains(
            res[j],
        ) by {
            if j >= 1 {
                assert(res[j] == ps[j]);
            }
        }
    } else {
        lemma_sorted_insert_elems(ps.drop_first(), k, v);
        let sub = sorted_insert(ps.drop_first(), k, v);
        assert forall|j: int| 0 <= j < res.len() implies res[j] == (k, v) || ps.contains(
            res[j],
        ) by {
            if j == 0 {
                assert(res[0] == ps[0]);
                assert(ps.contains(ps[0]));
            } else {
                assert(res[j] == sub[j - 1]);
                if sub[j - 1] == (k, v) {
                } else {
                    let m = choose|m: int| 0 <= m < ps.drop_first().len() && ps.drop_first()[m]
                        == sub[j - 1];
                    assert(ps[m + 1] == sub[j - 1]);
                    assert(ps.contains(ps[m + 1]));
                }
            }
        }
    }
}

/// Inserting into a key-sorted list keeps it key-sorted.
pub proof fn lemma_sorted_insert_sorted(ps: Seq<(Seq<char>, Seq<char>)>, k: Seq<char>, v: Seq<char>)
    requires
        strictly_sorted(ps),
    ensures
        strictly_sorted(sorted_insert(ps, k, v)),
    decreases ps.len(),
{
    let res = sorted_insert(ps, k, v);
    if ps.len() == 0 {
    } else if lex_lt(k, ps[0].0) {
        assert forall|i: int, j: int| 0 <= i < j < res.len() implies lex_lt(
            res[i].0,
            res[j].0,
        ) by {
            if i == 0 {
                assert(res[0] == (k, v));
                assert(res[j] == ps[j - 1]);
                if j - 1 > 0 {
                    assert(lex_lt(ps[0].0, ps[j - 1].0));
                    lemma_lex_trans(k, ps[0].0, ps[j - 1].0);
                }
            } else {
                assert(res[i] == ps[i - 1]);
                assert(res[j] == ps[j - 1]);
                assert(lex_lt(ps[i - 1].0, ps[j - 1].0));
            }
        }
    } else if k == ps[0].0 {
        assert forall|i: int, j: int| 0 <= i < j < res.len() implies lex_lt(
            res[i].0,
            res[j].0,
        ) by {
            if i == 0 {
                assert(res[0] == (k, v));
                assert(res[j] == ps[j]);
                assert(lex_lt(ps[0].0, ps[j].0));
            } else {
                assert(res[i] == ps[i]);
                assert(res[j] == ps[j]);
                assert(lex_lt(ps[i].0, ps[j].0));
            }
        }
    } else {
        lemma_lex_trichotomy(k, ps[0].0);
        assert(lex_lt(ps[0].0, k));
        assert forall|i: int, j: int| 0 <= i < j < ps.drop_first().len() implies lex_lt(
            ps.drop_first()[i].0,
            ps.drop_first()[j].0,
        ) by {
            assert(ps.drop_first()[i] == ps[i + 1]);
            assert(ps.drop_first()[j] == ps[j + 1]);
            assert(lex_lt(ps[i + 1].0, ps[j + 1].0));
        }
        lemma_sorted_insert_sorted(ps.drop_first(), k, v);
        lemma_sorted_insert_elems(ps.drop_first(), k, v);
        let sub = sorted_insert(ps.drop_first(), k, v);
        assert forall|i: int, j: int| 0 <= i < j < res.len() implies lex_lt(
            res[i].0,
            res[j].0,
        ) by {
            if i == 0 {
                assert(res[j] == sub[j - 1]);
                if sub[j - 1] == (k, v) {
                } else {
                    let m = choose|m: int| 0 <= m < ps.drop_first().len() && ps.drop_first()[m]
                        == sub[j - 1];
                    assert(ps[m + 1] == sub[j - 1]);
                    assert(lex_lt(ps[0].0, ps[m + 1].0));
                }
            } else {
                assert(res[i] == sub[i - 1]);
                assert(res[j] == sub[j - 1]);
            }
        }
    }
}

/// Where the linear scan stops decides what the insertion does: `i` is
/// the first position whose key is not below `k`.
pub proof fn lemma_sorted_insert_at(
    ps: Seq<(Seq<char>, Seq<char>)>,
    k: Seq<char>,
    v: Seq<char>,
    i: int,
)
    requires
        0 <= i <= ps.len(),
        forall|j: int| 0 <= j < i ==> lex_lt(ps[j].0, k),
        i < ps.len() ==> !lex_lt(ps[i].0, k),
    ensures
        i < ps.len() && ps[i].0 == k ==> sorted_insert(ps, k, v) == ps.subrange(0, i) + seq![
            (k, v),
        ] + ps.skip(i + 1),
        !(i < ps.len() && ps[i].0 == k) ==> sorted_insert(ps, k, v) == ps.subrange(0, i) + seq![
            (k, v),
        ] + ps.skip(i),
    decreases i,
{
    if i == 0 {
        if ps.len() == 0 {
            assert(sorted_insert(ps, k, v) =~= ps.subrange(0, 0) + seq![(k, v)] + ps.skip(0));
        } else {
            lemma_lex_trichotomy(k, ps[0].0);
            if ps[0].0 == k {
                assert(sorted_insert(ps, k, v) == seq![(k, v)] + ps.drop_first());
                assert(seq![(k, v)] + ps.drop_first() =~= ps.subrange(0, 0) + seq![(k, v)]
                    + ps.skip(1));
            } else {
                assert(lex_lt(k, ps[0].0));
                assert(seq![(k, v)] + ps =~= ps.subrange(0, 0) + seq![(k, v)] + ps.skip(0));
            }
        }
    } else {
        assert(lex_lt(ps[0].0, k));
        lemma_lex_trichotomy(k, ps[0].0);
        assert(sorted_insert(ps, k, v) == seq![ps[0]] + sorted_insert(ps.drop_first(), k, v));
        let tail = ps.drop_first();
        assert(forall|j: int| 0 <= j < i - 1 ==> tail[j] == ps[j + 1]);
        assert(i - 1 < tail.len() ==> tail[i - 1] == ps[i]);
        lemma_sorted_insert_at(tail, k, v, i - 1);
        if i < ps.len() && ps[i].0 == k {
            assert(seq![ps[0]] + (tail.subrange(0, i - 1) + seq![(k, v)] + tail.skip(i))
                =~= ps.subrange(0, i) + seq![(k, v)] + ps.skip(i + 1));
        } else {
            assert(seq![ps[0]] + (tail.subrange(0, i - 1) + seq![(k, v)] + tail.skip(i - 1))
                =~= ps.subrange(0, i) + seq![(k, v)] + ps.skip(i));
        }
    }
}

/// The textual form of one rendered pair: `key:value`.
pub open spec fn pair_chars(p: (Seq<char>, Seq<char>)) -> Seq<char> {
    p.0 + seq![':'] + p.1
}

/// The rendered line: `key:value` pairs joined by single tabs, nothing
/// before the first pair or after the last.
pub open spec fn render(ps: Seq<(Seq<char>, Seq<char>)>) -> Seq<char>
    decreases ps.len(),
{
    if ps.len() == 0 {
        Seq::empty()
    } else if ps.len() == 1 {
        pair_chars(ps[0])
    } else {
        pair_chars(ps[0]) + seq!['\t'] + render(ps.drop_first())
    }
}

proof fn lemma_render_push(ps: Seq<(Seq<char>, Seq<char>)>, p: (Seq<char>, Seq<char>))
    ensures
        ps.len() == 0 ==> render(ps.push(p)) == pair_chars(p),
        ps.len() > 0 ==> render(ps.push(p)) == render(ps) + seq!['\t'] + pair_chars(p),
    decreases ps.len(),
{
    if ps.len() == 0 {
        assert(ps.push(p)[0] == p);
        assert(render(ps.push(p)) == pair_chars(p));
    } else {
        let q = ps.push(p);
        assert(q.len() >= 2);
        assert(q[0] == ps[0]);
        assert(q.drop_first() =~= ps.drop_first().push(p));
        lemma_render_push(ps.drop_first(), p);
        if ps.len() == 1 {
            assert(render(q) == pair_chars(ps[0]) + seq!['\t'] + pair_chars(p));
            assert(render(ps) == pair_chars(ps[0]));
        } else {
            assert(render(q) == pair_chars(q[0]) + seq!['\t'] + render(q.drop_first()));
            assert(render(ps.drop_first()).len() > 0 || ps.drop_first().len() > 0);
            assert(render(q) == pair_chars(ps[0]) + seq!['\t'] + (render(ps.drop_first())
                + seq!['\t'] + pair_chars(p)));
            assert(pair_chars(ps[0]) + seq!['\t'] + (render(ps.drop_first()) + seq!['\t']
                + pair_chars(p)) =~= (pair_chars(ps[0]) + seq!['\t'] + render(ps.drop_first()))
                + seq!['\t'] + pair_chars(p));
        }
    }
}

/// The ordered key/value map built inside one `encode` call: a pair list
/// kept strictly sorted by key, duplicate keys resolved by overwriting.
pub struct LTSVString {
    pub out: Vec<(String, String)>,
}

impl LTSVString {
    /// The character-level view of the pairs, in storage order.
    pub open spec fn pairs(self) -> Seq<(Seq<char>, Seq<char>)> {
        pairs_view(self.out@)
    }

    /// The structural invariant: keys strictly ascending.
    pub open spec fn wf(self) -> bool {
        strictly_sorted(self.pairs())
    }

    /// An empty map.
    pub fn new() -> (s: LTSVString)
        ensures
            s.wf(),
            s.pairs() == Seq::<(Seq<char>, Seq<char>)>::empty(),
    {
        let s = LTSVString { out: Vec::new() };
        proof {
            assert(s.pairs() =~= Seq::<(Seq<char>, Seq<char>)>::empty());
        }
        s
    }

    /// Escape the key and the value, then insert, overwriting any pair
    /// that already carries the escaped key.
    pub fn insert(&mut self, key: &str, value: &str)
        requires
            old(self).wf(),
        ensures
            final(self).wf(),
            final(self).pairs() == sorted_insert(
                old(self).pairs(),
                escape_seq(key@),
                escape_seq(value@),
            ),
    {
        let k = escape_string(key);
        let v = escape_string(value);
        let ghost ps = self.pairs();
        let n = self.out.len();
        let mut i: usize = 0;
        loop
            invariant
                i <= n,
                n == self.out@.len(),
                self.out@ == old(self).out@,
                k@ == escape_seq(key@),
                forall|j: int| 0 <= j < i ==> lex_lt(pairs_view(self.out@)[j].0, k@),
            ensures
                i <= n,
                n == self.out@.len(),
                self.out@ == old(self).out@,
                forall|j: int| 0 <= j < i ==> lex_lt(pairs_view(self.out@)[j].0, k@),
                i < n ==> !lex_lt(pairs_view(self.out@)[i as int].0, k@),
            decreases n - i,
        {
            if i >= n {
                break ;
            }
            let cur = &self.out[i];
            if !string_lt(&cur.0, &k) {
                break ;
            }
            i = i + 1;
        }
        let mut same_key = false;
        if i < n {
            let cur = &self.out[i];
            same_key = str_eq(cur.0.as_str(), k.as_str());
        }
        proof {
            lemma_sorted_insert_at(ps, k@, v@, i as int);
        }
        if same_key {
            let _replaced = self.out.remove(i);
            self.out.insert(i, (k, v));
            proof {
                assert(self.pairs() =~= ps.subrange(0, i as int) + seq![(k@, v@)] + ps.skip(
                    i + 1 as int,
                ));
            }
        } else {
            self.out.insert(i, (k, v));
            proof {
                assert(self.pairs() =~= ps.subrange(0, i as int) + seq![(k@, v@)] + ps.skip(
                    i as int,
                ));
            }
        }
        proof {
            lemma_sorted_insert_sorted(ps, k@, v@);
        }
    }

    /// Render the pairs as one LTSV line.
    pub fn finalize(self) -> (r: String)
        ensures
            r@ == render(self.pairs()),
    {
        let ghost ps = self.pairs();
        let n = self.out.len();
        let mut line = String::new();
        let mut i: usize = 0;
        while i < n
            invariant
                i <= n,
                n == self.out@.len(),
                ps == self.pairs(),
                line@ == render(ps.subrange(0, i as int)),
            decreases n - i,
        {
            if i > 0 {
                line.append("\t");
                proof {
                    reveal_strlit("\t");
                    assert("\t"@ =~= seq!['\t']);
                }
            }
            let cur = &self.out[i];
            line.append(cur.0.as_str());
            line.append(":");
            line.append(cur.1.as_str());
            proof {
                reveal_strlit(":");
                assert(":"@ =~= seq![':']);
                let pre = ps.subrange(0, i as int);
                assert(ps.subrange(0, i + 1 as int) =~= pre.push(ps[i as int]));
                lemma_render_push(pre, ps[i as int]);
                assert(ps[i as int] == (cur.0@, cur.1@));
                if i == 0 {
                    assert(line@ =~= pair_chars(ps[i as int]));
                } else {
                    assert(line@ =~= render(pre) + seq!['\t'] + pair_chars(ps[i as int]));
                }
            }
            i = i + 1;
        }
        proof {
            assert(ps.subrange(0, n as int) =~= ps);
        }
        line
    }
}

/// Text free of the characters that would corrupt the line format.
pub open spec fn clean(s: Seq<char>) -> bool {
    forall|i: int| 0 <= i < s.len() ==> s[i] != '\n' && s[i] != '\t' && s[i] != ':'
}

/// Escaped text is always clean.
pub proof fn lemma_escape_seq_clean(s: Seq<char>)
    ensures
        clean(escape_seq(s)),
{
    crate::text::lemma_escape_clean(s);
}

/// A pair whose key and value are both clean.
pub open spec fn clean_pair(p: (Seq<char>, Seq<char>)) -> bool {
    clean(p.0) && clean(p.1)
}

/// Inserting pairs with escaped keys and values keeps every stored key
/// and value clean.
pub proof fn lemma_insert_all_clean(ps: Seq<(Seq<char>, Seq<char>)>, src: Seq<(Seq<char>, Seq<char>)>)
    requires
        forall|j: int| 0 <= j < ps.len() ==> clean_pair(#[trigger] ps[j]),
    ensures
        forall|j: int|
            0 <= j < insert_all(ps, src).len() ==> clean_pair(#[trigger] insert_all(ps, src)[j]),
    decreases src.len(),
{
    if src.len() > 0 {
        lemma_insert_all_clean(ps, src.drop_last());
        let mid = insert_all(ps, src.drop_last());
        let k = escape_seq(src.last().0);
        let v = escape_seq(src.last().1);
        lemma_sorted_insert_elems(mid, k, v);
        lemma_escape_seq_clean(src.last().0);
        lemma_escape_seq_clean(src.last().1);
        let res = sorted_insert(mid, k, v);
        assert forall|j: int| 0 <= j < res.len() implies clean_pair(#[trigger] res[j]) by {
            if res[j] == (k, v) {
                assert(clean_pair((k, v)));
            } else {
                assert(mid.contains(res[j]));
                let m = choose|m: int| 0 <= m < mid.len() && mid[m] == res[j];
                assert(clean_pair(mid[m]));
            }
        }
    }
}

/// Escaping is applied symmetrically to every key and every value: no
/// key or value of the encoded line ever contains a newline, a tab, or
/// a colon, whatever the record and the extra fields hold.
pub proof fn lemma_output_fields_clean(rec: Record, extra: Seq<(String, String)>)
    ensures
        forall|j: int|
            0 <= j < build_pairs(all_source(rec, extra)).len() ==> clean_pair(
                #[trigger] build_pairs(all_source(rec, extra))[j],
            ),
{
    lemma_insert_all_clean(Seq::empty(), all_source(rec, extra));
}

/// Inserting into a key-sorted list, pair after pair, keeps it sorted.
pub proof fn lemma_insert_all_sorted(
    ps: Seq<(Seq<char>, Seq<char>)>,
    src: Seq<(Seq<char>, Seq<char>)>,
)
    requires
        strictly_sorted(ps),
    ensures
        strictly_sorted(insert_all(ps, src)),
    decreases src.len(),
{
    if src.len() > 0 {
        lemma_insert_all_sorted(ps, src.drop_last());
        lemma_sorted_insert_sorted(
            insert_all(ps, src.drop_last()),
            escape_seq(src.last().0),
            escape_seq(src.last().1),
        );
    }
}

/// Output keys appear in strictly ascending lexical order, for every
/// record and every extra-fields configuration; in particular no key
/// appears twice.
pub proof fn lemma_output_sorted(rec: Record, extra: Seq<(String, String)>)
    ensures
        strictly_sorted(build_pairs(all_source(rec, extra))),
{
    lemma_insert_all_sorted(Seq::empty(), all_source(rec, extra));
}

/// A field name with a leading underscore deliberately overrides a
/// reserved output key: the underscore is stripped before use.
pub open spec fn strip_underscore(name: Seq<char>) -> Seq<char> {
    if name.len() > 0 && name[0] == '_' {
        name.skip(1)
    } else {
        name
    }
}

/// The fixed output key for the hostname.
pub open spec fn key_host() -> Seq<char> {
    seq!['h', 'o', 's', 't']
}

/// The fixed output key for the timestamp.
pub open spec fn key_time() -> Seq<char> {
    seq!['t', 'i', 'm', 'e']
}

/// The fixed output key for the short message.
pub open spec fn key_message() -> Seq<char> {
    seq!['m', 'e', 's', 's', 'a', 'g', 'e']
}

/// The fixed output key for the long message.
pub open spec fn key_full_message() -> Seq<char> {
    seq!['f', 'u', 'l', 'l', '_', 'm', 'e', 's', 's', 'a', 'g', 'e']
}

/// The fixed output key for the severity.
pub open spec fn key_level() -> Seq<char> {
    seq!['l', 'e', 'v', 'e', 'l']
}

/// The fixed output key for the facility.
pub open spec fn key_facility() -> Seq<char> {
    seq!['f', 'a', 'c', 'i', 'l', 'i', 't', 'y']
}

/// The fixed output key for the application name.
pub open spec fn key_appname() -> Seq<char> {
    seq!['a', 'p', 'p', 'n', 'a', 'm', 'e']
}

/// The fixed output key for the process id.
pub open spec fn key_procid() -> Seq<char> {
    seq!['p', 'r', 'o', 'c', 'i', 'd']
}

/// The fixed output key for the message id.
pub open spec fn key_msgid() -> Seq<char> {
    seq!['m', 's', 'g', 'i', 'd']
}

/// The name/value pairs a record's structured data contributes, in the
/// record's order, names underscore-stripped, values in textual form.
pub open spec fn sd_source(sd: Option<crate::record::StructuredData>) -> Seq<
    (Seq<char>, Seq<char>),
> {
    match sd {
        None => Seq::empty(),
        Some(s) => s.pairs@.map_values(
            |p: (String, SDValue)| (strip_underscore(p.0@), sd_value_chars(p.1)),
        ),
    }
}

/// The pairs the configured extra fields contribute, in configuration
/// order, names underscore-stripped.
pub open spec fn extra_source(extra: Seq<(String, String)>) -> Seq<(Seq<char>, Seq<char>)> {
    extra.map_values(|p: (String, String)| (strip_underscore(p.0@), p.1@))
}

/// Zero or one pair for an optional string field.
pub open spec fn opt_str_pair(key: Seq<char>, v: Option<String>) -> Seq<(Seq<char>, Seq<char>)> {
    match v {
        None => Seq::empty(),
        Some(s) => seq![(key, s@)],
    }
}

/// Zero or one pair for an optional small-integer field, in decimal.
pub open spec fn opt_num_pair(key: Seq<char>, v: Option<u8>) -> Seq<(Seq<char>, Seq<char>)> {
    match v {
        None => Seq::empty(),
        Some(n) => seq![(key, crate::text::dec_chars(n as nat))],
    }
}

/// The first fixed pairs: host and time always, the two message texts
/// when the record carries them.
pub open spec fn fixed_source_head(rec: Record) -> Seq<(Seq<char>, Seq<char>)> {
    seq![(key_host(), rec.hostname@), (key_time(), rec.ts@)] + opt_str_pair(key_message(), rec.msg)
        + opt_str_pair(key_full_message(), rec.full_msg)
}

/// The remaining fixed pairs, each only when the record carries the
/// field.
pub open spec fn fixed_source_tail(rec: Record) -> Seq<(Seq<char>, Seq<char>)> {
    opt_num_pair(key_level(), rec.severity) + opt_num_pair(key_facility(), rec.facility)
        + opt_str_pair(key_appname(), rec.appname) + opt_str_pair(key_procid(), rec.procid)
        + opt_str_pair(key_msgid(), rec.msgid)
}

/// The fixed pairs, inserted last so they win every conflict: host and
/// time always, the rest only when the record carries the field.
pub open spec fn fixed_source(rec: Record) -> Seq<(Seq<char>, Seq<char>)> {
    fixed_source_head(rec) + fixed_source_tail(rec)
}

/// Everything one encode call inserts, in insertion order: structured
/// data first, then extra fields, then the fixed pairs.
pub open spec fn all_source(rec: Record, extra: Seq<(String, String)>) -> Seq<
    (Seq<char>, Seq<char>),
> {
    sd_source(rec.sd) + extra_source(extra) + fixed_source(rec)
}

/// The sorted pair list after inserting each source pair of `src` in
/// turn into `ps`, escaping keys and values on the way in; later pairs
/// overwrite earlier ones of the same escaped key.
pub open spec fn insert_all(
    ps: Seq<(Seq<char>, Seq<char>)>,
    src: Seq<(Seq<char>, Seq<char>)>,
) -> Seq<(Seq<char>, Seq<char>)>
    decreases src.len(),
{
    if src.len() == 0 {
        ps
    } else {
        sorted_insert(
            insert_all(ps, src.drop_last()),
            escape_seq(src.last().0),
            escape_seq(src.last().1),
        )
    }
}

/// The pair list an encode call builds: every source pair inserted into
/// an initially empty list.
pub open spec fn build_pairs(src: Seq<(Seq<char>, Seq<char>)>) -> Seq<(Seq<char>, Seq<char>)> {
    insert_all(Seq::empty(), src)
}

/// One record's whole LTSV line, as characters.
pub open spec fn ltsv_line(rec: Record, extra: Seq<(String, String)>) -> Seq<char> {
    render(build_pairs(all_source(rec, extra)))
}

proof fn lemma_insert_all_push(
    ps: Seq<(Seq<char>, Seq<char>)>,
    src: Seq<(Seq<char>, Seq<char>)>,
    p: (Seq<char>, Seq<char>),
)
    ensures
        insert_all(ps, src.push(p)) == sorted_insert(
            insert_all(ps, src),
            escape_seq(p.0),
            escape_seq(p.1),
        ),
{
    assert(src.push(p).drop_last() =~= src);
    assert(src.push(p).last() == p);
}

/// Inserting a concatenation of sources is inserting one source after
/// the other.
pub proof fn lemma_insert_all_concat(
    ps: Seq<(Seq<char>, Seq<char>)>,
    a: Seq<(Seq<char>, Seq<char>)>,
    b: Seq<(Seq<char>, Seq<char>)>,
)
    ensures
        insert_all(ps, a + b) == insert_all(insert_all(ps, a), b),
    decreases b.len(),
{
    if b.len() == 0 {
        assert(a + b =~= a);
    } else {
        assert((a + b).drop_last() =~= a + b.drop_last());
        assert((a + b).last() == b.last());
        lemma_insert_all_concat(ps, a, b.drop_last());
    }
}

/// The LTSV encoder: the static extra fields, fixed at construction.
#[derive(Clone)]
pub struct LTSVEncoder {
    pub extra: Vec<(String, String)>,
}

impl LTSVEncoder {
    /// Build an encoder from the configuration's `output.ltsv_extra`
    /// entry. A missing entry means no extra fields; an entry of any
    /// shape but a table of string values is a construction-time error.
    pub fn new(config: &Config) -> (r: Result<LTSVEncoder, ConfigError>)
        ensures
            match spec_lookup(config.entries@, "output.ltsv_extra"@) {
                None => r is Ok && r->Ok_0.extra@.len() == 0,
                Some(v) => match v {
                    ConfigValue::Table(t) => if forall|i: int|
                        0 <= i < t@.len() ==> t@[i].1 is Str {
                        &&& r is Ok
                        &&& r->Ok_0.extra@.len() == t@.len()
                        &&& forall|i: int|
                            0 <= i < t@.len() ==> r->Ok_0.extra@[i].0 == t@[i].0
                                && r->Ok_0.extra@[i].1@ == t@[i].1->Str_0@
                    } else {
                        r == Err::<LTSVEncoder, ConfigError>(ConfigError::ExtraFieldValueNotString)
                    },
                    _ => r == Err::<LTSVEncoder, ConfigError>(ConfigError::ExtraFieldsNotTable),
                },
            },
    {
        let looked = config.lookup("output.ltsv_extra");
        match looked {
            None => Ok(LTSVEncoder { extra: Vec::new() }),
            Some(v) => match v {
                ConfigValue::Table(t) => {
                    let mut extra: Vec<(String, String)> = Vec::new();
                    let n = t.len();
                    let mut i: usize = 0;
                    while i < n
                        invariant
                            i <= n,
                            n == t@.len(),
                            extra@.len() == i,
                            spec_lookup(config.entries@, "output.ltsv_extra"@) == Some(
                                ConfigValue::Table(*t),
                            ),
                            forall|j: int| 0 <= j < i ==> t@[j].1 is Str,
                            forall|j: int|
                                0 <= j < i ==> extra@[j].0 == t@[j].0 && extra@[j].1@
                                    == t@[j].1->Str_0@,
                        decreases n - i,
                    {
                        let entry = &t[i];
                        match &entry.1 {
                            ConfigValue::Str(s) => {
                                extra.push((entry.0.clone(), s.clone()));
                            },
                            _ => {
                                proof {
                                    assert((i as int) < t@.len());
                                    assert(!(t@[i as int].1 is Str));
                                    assert(!(forall|j: int|
                                        0 <= j < t@.len() ==> t@[j].1 is Str));
                                }
                                return Err(ConfigError::ExtraFieldValueNotString);
                            },
                        }
                        i = i + 1;
                    }
                    Ok(LTSVEncoder { extra })
                },
                _ => Err(ConfigError::ExtraFieldsNotTable),
            },
        }
    }

    /// Encode one record as LTSV output bytes: the UTF-8 encoding of the
    /// line the model prescribes. Encoding itself cannot fail.
    pub fn encode(&self, record: Record) -> (r: Result<Vec<u8>, &'static str>)
        ensures
            r is Ok,
            r->Ok_0@ == vstd::utf8::encode_utf8(ltsv_line(record, self.extra@)),
    {
        let ghost e = Seq::<(Seq<char>, Seq<char>)>::empty();
        let mut res = LTSVString::new();
        match &record.sd {
            Some(sdv) => {
                insert_sd_pairs(&mut res, sdv);
            },
            None => {
                proof {
                    assert(sd_source(record.sd) =~= e);
                    assert(insert_all(e, e) == e);
                }
            },
        }
        insert_extra_pairs(&mut res, &self.extra);
        insert_fixed_pairs(&mut res, &record);
        proof {
            let sd_src = sd_source(record.sd);
            let ex_src = extra_source(self.extra@);
            let fx_src = fixed_source(record);
            lemma_insert_all_concat(e, sd_src + ex_src, fx_src);
            lemma_insert_all_concat(e, sd_src, ex_src);
            assert(res.pairs() == build_pairs(all_source(record, self.extra@)));
        }
        let line = res.finalize();
        let bytes = line.as_str().as_bytes_vec();
        Ok(bytes)
    }

    /// Encode one connection's decoded frames, in arrival order: the
    /// output holds exactly the encodings of the frames that decoded,
    /// in the order they arrived; a frame whose decode failed is
    /// skipped and the stream goes on.
    pub fn encode_all(&self, records: Vec<Option<Record>>) -> (r: Vec<Vec<u8>>)
        ensures
            crate::splitter::frames_view(r@) == encoded_stream(self.extra@, records@),
    {
        let ghost orig = records@;
        let mut records = records;
        let mut out: Vec<Vec<u8>> = Vec::new();
        proof {
            assert(crate::splitter::frames_view(out@) =~= Seq::<Seq<u8>>::empty());
            assert(crate::splitter::frames_view(out@) + encoded_stream(self.extra@, records@)
                =~= encoded_stream(self.extra@, records@));
        }
        while records.len() > 0
            invariant
                crate::splitter::frames_view(out@) + encoded_stream(self.extra@, records@)
                    == encoded_stream(self.extra@, orig),
            decreases records@.len(),
        {
            let ghost before = records@;
            let first = records.remove(0);
            proof {
                assert(records@ =~= before.drop_first());
                assert(before[0] == first);
            }
            match first {
                Some(rec) => {
                    let bytes = self.encode(rec).unwrap();
                    out.push(bytes);
                    proof {
                        assert(crate::splitter::frames_view(out@) =~= crate::splitter::frames_view(
                            out@.drop_last(),
                        ).push(out@.last()@));
                        assert(crate::splitter::frames_view(out@) + encoded_stream(
                            self.extra@,
                            records@,
                        ) =~= crate::splitter::frames_view(out@.drop_last()) + encoded_stream(
                            self.extra@,
                            before,
                        ));
                    }
                },
                None => {},
            }
        }
        proof {
            assert(records@.len() == 0);
            assert(crate::splitter::frames_view(out@) + encoded_stream(self.extra@, records@)
                =~= crate::splitter::frames_view(out@));
        }
        out
    }
}

/// The encodings of the frames of one connection that decoded, in
/// arrival order.
pub open spec fn encoded_stream(extra: Seq<(String, String)>, rs: Seq<Option<Record>>) -> Seq<
    Seq<u8>,
>
    decreases rs.len(),
{
    if rs.len() == 0 {
        Seq::empty()
    } else {
        match rs[0] {
            Some(r) => seq![vstd::utf8::encode_utf8(ltsv_line(r, extra))] + encoded_stream(
                extra,
                rs.drop_first(),
            ),
            None => encoded_stream(extra, rs.drop_first()),
        }
    }
}

/// Strip a leading underscore from the name, then insert name and value.
fn insert_stripped(res: &mut LTSVString, name: &str, value: &str)
    requires
        old(res).wf(),
    ensures
        final(res).wf(),
        final(res).pairs() == sorted_insert(
            old(res).pairs(),
            escape_seq(strip_underscore(name@)),
            escape_seq(value@),
        ),
{
    let name_len = name.unicode_len();
    let stripped: &str = if name_len > 0 && name.get_char(0) == '_' {
        name.substring_char(1, name_len)
    } else {
        name
    };
    proof {
        assert(stripped@ == strip_underscore(name@));
    }
    res.insert(stripped, value);
}

/// Insert every structured-data pair, in the record's order.
fn insert_sd_pairs(res: &mut LTSVString, sd: &crate::record::StructuredData)
    requires
        old(res).wf(),
    ensures
        final(res).wf(),
        final(res).pairs() == insert_all(old(res).pairs(), sd_source(Some(*sd))),
{
    let ghost src = sd_source(Some(*sd));
    let ghost ps0 = res.pairs();
    let n = sd.pairs.len();
    let mut i: usize = 0;
    proof {
        assert(src.subrange(0, 0) =~= Seq::<(Seq<char>, Seq<char>)>::empty());
    }
    while i < n
        invariant
            i <= n,
            n == sd.pairs@.len(),
            res.wf(),
            src == sd_source(Some(*sd)),
            ps0 == old(res).pairs(),
            res.pairs() == insert_all(ps0, src.subrange(0, i as int)),
        decreases n - i,
    {
        let pair = &sd.pairs[i];
        let valstr = sd_value_string(&pair.1);
        insert_stripped(res, pair.0.as_str(), valstr.as_str());
        proof {
            assert(src[i as int] == (strip_underscore(pair.0@), sd_value_chars(pair.1)));
            assert(src.subrange(0, i + 1 as int) =~= src.subrange(0, i as int).push(
                src[i as int],
            ));
            lemma_insert_all_push(ps0, src.subrange(0, i as int), src[i as int]);
        }
        i = i + 1;
    }
    proof {
        assert(src.subrange(0, n as int) =~= src);
    }
}

/// Insert every configured extra field, in configuration order.
fn insert_extra_pairs(res: &mut LTSVString, extra: &Vec<(String, String)>)
    requires
        old(res).wf(),
    ensures
        final(res).wf(),
        final(res).pairs() == insert_all(old(res).pairs(), extra_source(extra@)),
{
    let ghost src = extra_source(extra@);
    let ghost ps0 = res.pairs();
    let n = extra.len();
    let mut i: usize = 0;
    proof {
        assert(src.subrange(0, 0) =~= Seq::<(Seq<char>, Seq<char>)>::empty());
    }
    while i < n
        invariant
            i <= n,
            n == extra@.len(),
            res.wf(),
            src == extra_source(extra@),
            ps0 == old(res).pairs(),
            res.pairs() == insert_all(ps0, src.subrange(0, i as int)),
        decreases n - i,
    {
        let pair = &extra[i];
        insert_stripped(res, pair.0.as_str(), pair.1.as_str());
        proof {
            assert(src[i as int] == (strip_underscore(pair.0@), pair.1@));
            assert(src.subrange(0, i + 1 as int) =~= src.subrange(0, i as int).push(
                src[i as int],
            ));
            lemma_insert_all_push(ps0, src.subrange(0, i as int), src[i as int]);
        }
        i = i + 1;
    }
    proof {
        assert(src.subrange(0, n as int) =~= src);
    }
}

/// Insert the fixed pairs, last: host and time always, each optional
/// field only when the record carries it.
fn insert_fixed_pairs(res: &mut LTSVString, rec: &Record)
    requires
        old(res).wf(),
    ensures
        final(res).wf(),
        final(res).pairs() == insert_all(old(res).pairs(), fixed_source(*rec)),
{
    let ghost ps0 = res.pairs();
    insert_fixed_head(res, rec);
    insert_fixed_tail(res, rec);
    proof {
        lemma_insert_all_concat(ps0, fixed_source_head(*rec), fixed_source_tail(*rec));
    }
}

/// Insert host, time, and the message texts.
#[verifier::spinoff_prover]
fn insert_fixed_head(res: &mut LTSVString, rec: &Record)
    requires
        old(res).wf(),
    ensures
        final(res).wf(),
        final(res).pairs() == insert_all(old(res).pairs(), fixed_source_head(*rec)),
{
    let ghost ps0 = res.pairs();
    let ghost mut cur = Seq::<(Seq<char>, Seq<char>)>::empty();
    res.insert("host", rec.hostname.as_str());
    proof {
        reveal_strlit("host");
        assert("host"@ =~= key_host());
        lemma_insert_all_push(ps0, cur, (key_host(), rec.hostname@));
        assert(cur.push((key_host(), rec.hostname@)) =~= Seq::empty().push(
            (key_host(), rec.hostname@),
        ));
        assert(insert_all(ps0, Seq::<(Seq<char>, Seq<char>)>::empty()) == ps0);
        cur = cur.push((key_host(), rec.hostname@));
    }
    res.insert("time", rec.ts.as_str());
    proof {
        reveal_strlit("time");
        assert("time"@ =~= key_time());
        lemma_insert_all_push(ps0, cur, (key_time(), rec.ts@));
        cur = cur.push((key_time(), rec.ts@));
    }
    match &rec.msg {
        Some(m) => {
            res.insert("message", m.as_str());
            proof {
                reveal_strlit("message");
                assert("message"@ =~= key_message());
                lemma_insert_all_push(ps0, cur, (key_message(), m@));
                cur = cur.push((key_message(), m@));
            }
        },
        None => {},
    }
    match &rec.full_msg {
        Some(m) => {
            res.insert("full_message", m.as_str());
            proof {
                reveal_strlit("full_message");
                assert("full_message"@ =~= key_full_message());
                lemma_insert_all_push(ps0, cur, (key_full_message(), m@));
                cur = cur.push((key_full_message(), m@));
            }
        },
        None => {},
    }
    proof {
        assert(cur =~= fixed_source_head(*rec));
    }
}

/// Insert the remaining fixed pairs for the fields the record carries.
#[verifier::spinoff_prover]
fn insert_fixed_tail(res: &mut LTSVString, rec: &Record)
    requires
        old(res).wf(),
    ensures
        final(res).wf(),
        final(res).pairs() == insert_all(old(res).pairs(), fixed_source_tail(*rec)),
{
    let ghost ps0 = res.pairs();
    let ghost mut cur = Seq::<(Seq<char>, Seq<char>)>::empty();
    match rec.severity {
        Some(sev) => {
            let sev_str = u64_to_string(sev as u64);
            res.insert("level", sev_str.as_str());
            proof {
                reveal_strlit("level");
                assert("level"@ =~= key_level());
                lemma_insert_all_push(ps0, cur, (key_level(), crate::text::dec_chars(sev as nat)));
                cur = cur.push((key_level(), crate::text::dec_chars(sev as nat)));
            }
        },
        None => {},
    }
    match rec.facility {
        Some(fac) => {
            let fac_str = u64_to_string(fac as u64);
            res.insert("facility", fac_str.as_str());
            proof {
                reveal_strlit("facility");
                assert("facility"@ =~= key_facility());
                lemma_insert_all_push(
                    ps0,
                    cur,
                    (key_facility(), crate::text::dec_chars(fac as nat)),
                );
                cur = cur.push((key_facility(), crate::text::dec_chars(fac as nat)));
            }
        },
        None => {},
    }
    match &rec.appname {
        Some(a) => {
            res.insert("appname", a.as_str());
            proof {
                reveal_strlit("appname");
                assert("appname"@ =~= key_appname());
                lemma_insert_all_push(ps0, cur, (key_appname(), a@));
                cur = cur.push((key_appname(), a@));
            }
        },
        None => {},
    }
    match &rec.procid {
        Some(p) => {
            res.insert("procid", p.as_str());
            proof {
                reveal_strlit("procid");
                assert("procid"@ =~= key_procid());
                lemma_insert_all_push(ps0, cur, (key_procid(), p@));
                cur = cur.push((key_procid(), p@));
            }
        },
        None => {},
    }
    match &rec.msgid {
        Some(m) => {
            res.insert("msgid", m.as_str());
            proof {
                reveal_strlit("msgid");
                assert("msgid"@ =~= key_msgid());
                lemma_insert_all_push(ps0, cur, (key_msgid(), m@));
                cur = cur.push((key_msgid(), m@));
            }
        },
        None => {},
    }
    proof {
        assert(cur =~= fixed_source_tail(*rec));
    }
}

} // verus!
