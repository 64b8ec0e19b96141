//! Laws of the LTSV encoder's canonical output map: which keys appear,
//! and which source wins when several contribute the same key.

use vstd::prelude::*;
use crate::ltsv_encoder::{
    all_source, build_pairs, extra_source, fixed_source, fixed_source_head, fixed_source_tail,
    insert_all, sd_source, sorted_insert, strictly_sorted, lemma_sorted_insert_elems,
    lemma_insert_all_sorted, key_host, key_time, key_message, key_full_message, key_level,
    key_facility, key_appname, key_procid, key_msgid, opt_str_pair, opt_num_pair,
};
use crate::record::Record;
use crate::text::{escape_seq, lex_lt, lemma_lex_trichotomy};

verus! {

/// The key/value map a pair list denotes: a later pair wins over an
/// earlier one of the same key.
pub open spec fn map_of(ps: Seq<(Seq<char>, Seq<char>)>) -> Map<Seq<char>, Seq<char>>
    decreases ps.len(),
{
    if ps.len() == 0 {
        Map::empty()
    } else {
        map_of(ps.drop_last()).insert(ps.last().0, ps.last().1)
    }
}

/// The escaped keys a source list contributes.
pub open spec fn keys_of(src: Seq<(Seq<char>, Seq<char>)>) -> Set<Seq<char>>
    decreases src.len(),
{
    if src.len() == 0 {
        Set::empty()
    } else {
        keys_of(src.drop_last()).insert(escape_seq(src.last().0))
    }
}

/// The escaped value of the last pair of `src` whose escaped key is
/// `k`; meaningful when some pair carries `k`.
pub open spec fn last_value(src: Seq<(Seq<char>, Seq<char>)>, k: Seq<char>) -> Seq<char>
    decreases src.len(),
{
    if src.len() == 0 {
        Seq::empty()
    } else if escape_seq(src.last().0) == k {
        escape_seq(src.last().1)
    } else {
        last_value(src.drop_last(), k)
    }
}

/// The map after inserting every pair of `src`, escaped, into `m`.
pub open spec fn map_with(
    m: Map<Seq<char>, Seq<char>>,
    src: Seq<(Seq<char>, Seq<char>)>,
) -> Map<Seq<char>, Seq<char>>
    decreases src.len(),
{
    if src.len() == 0 {
        m
    } else {
        map_with(m, src.drop_last()).insert(escape_seq(src.last().0), escape_seq(src.last().1))
    }
}

proof fn lemma_map_of_prepend(p: (Seq<char>, Seq<char>), ps: Seq<(Seq<char>, Seq<char>)>)
    requires
        forall|j: int| 0 <= j < ps.len() ==> (#[trigger] ps[j]).0 != p.0,
    ensures
        map_of(seq![p] + ps) == map_of(ps).insert(p.0, p.1),
    decreases ps.len(),
{
    let q = seq![p] + ps;
    if ps.len() == 0 {
        assert(q.len() == 1);
        assert(q.drop_last() =~= Seq::<(Seq<char>, Seq<char>)>::empty());
        assert(q.last() == p);
        assert(map_of(q) == map_of(q.drop_last()).insert(q.last().0, q.last().1));
        assert(map_of(q) == Map::<Seq<char>, Seq<char>>::empty().insert(p.0, p.1));
    } else {
        assert(q.drop_last() =~= seq![p] + ps.drop_last());
        assert(q.last() == ps.last());
        assert(forall|j: int|
            0 <= j < ps.drop_last().len() ==> (#[trigger] ps.drop_last()[j]) == ps[j]);
        lemma_map_of_prepend(p, ps.drop_last());
        assert(ps.last() == ps[ps.len() - 1]);
        assert(ps.last().0 != p.0);
        assert(map_of(q) == map_of(q.drop_last()).insert(q.last().0, q.last().1));
        assert(map_of(q.drop_last()) == map_of(ps.drop_last()).insert(p.0, p.1));
        assert(map_of(ps.drop_last()).insert(p.0, p.1).insert(ps.last().0, ps.last().1)
            =~= map_of(ps.drop_last()).insert(ps.last().0, ps.last().1).insert(p.0, p.1));
        assert(map_of(ps) == map_of(ps.drop_last()).insert(ps.last().0, ps.last().1));
    }
}

proof fn lemma_drop_first_sorted(ps: Seq<(Seq<char>, Seq<char>)>)
    requires
        strictly_sorted(ps),
        ps.len() > 0,
    ensures
        strictly_sorted(ps.drop_first()),
{
    assert forall|i: int, j: int| 0 <= i < j < ps.drop_first().len() implies lex_lt(
        ps.drop_first()[i].0,
        ps.drop_first()[j].0,
    ) by {
        assert(ps.drop_first()[i] == ps[i + 1]);
        assert(ps.drop_first()[j] == ps[j + 1]);
        assert(lex_lt(ps[i + 1].0, ps[j + 1].0));
    }
}

/// Inserting into a sorted pair list denotes insertion into its map.
pub proof fn lemma_sorted_insert_map(ps: Seq<(Seq<char>, Seq<char>)>, k: Seq<char>, v: Seq<char>)
    requires
        strictly_sorted(ps),
    ensures
        map_of(sorted_insert(ps, k, v)) == map_of(ps).insert(k, v),
    decreases ps.len(),
{
    if ps.len() == 0 {
        let q = seq![(k, v)];
        assert(sorted_insert(ps, k, v) == q);
        assert(q.drop_last() =~= Seq::<(Seq<char>, Seq<char>)>::empty());
        assert(q.last() == (k, v));
        assert(map_of(q) == map_of(q.drop_last()).insert(q.last().0, q.last().1));
        assert(map_of(ps) == Map::<Seq<char>, Seq<char>>::empty());
    } else if lex_lt(k, ps[0].0) {
        assert forall|j: int| 0 <= j < ps.len() implies (#[trigger] ps[j]).0 != k by {
            if j == 0 {
                lemma_lex_trichotomy(k, ps[0].0);
            } else {
                crate::text::lemma_lex_trans(k, ps[0].0, ps[j].0);
                lemma_lex_trichotomy(k, ps[j].0);
            }
        }
        lemma_map_of_prepend((k, v), ps);
    } else if k == ps[0].0 {
        let tail = ps.drop_first();
        assert forall|j: int| 0 <= j < tail.len() implies (#[trigger] tail[j]).0 != k by {
            assert(tail[j] == ps[j + 1]);
            assert(lex_lt(ps[0].0, ps[j + 1].0));
            lemma_lex_trichotomy(k, ps[j + 1].0);
        }
        lemma_map_of_prepend((k, v), tail);
        assert(ps =~= seq![ps[0]] + tail);
        lemma_map_of_prepend(ps[0], tail);
        assert(map_of(tail).insert(ps[0].0, ps[0].1).insert(k, v) =~= map_of(tail).insert(k, v));
    } else {
        lemma_lex_trichotomy(k, ps[0].0);
        assert(lex_lt(ps[0].0, k));
        let tail = ps.drop_first();
        lemma_drop_first_sorted(ps);
        lemma_sorted_insert_map(tail, k, v);
        let sub = sorted_insert(tail, k, v);
        lemma_sorted_insert_elems(tail, k, v);
        assert forall|j: int| 0 <= j < sub.len() implies (#[trigger] sub[j]).0 != ps[0].0 by {
            if sub[j] == (k, v) {
            } else {
                assert(tail.contains(sub[j]));
                let m = choose|m: int| 0 <= m < tail.len() && tail[m] == sub[j];
                assert(tail[m] == ps[m + 1]);
                assert(lex_lt(ps[0].0, ps[m + 1].0));
                lemma_lex_trichotomy(ps[0].0, ps[m + 1].0);
            }
        }
        lemma_map_of_prepend(ps[0], sub);
        assert forall|j: int| 0 <= j < tail.len() implies (#[trigger] tail[j]).0 != ps[0].0 by {
            assert(tail[j] == ps[j + 1]);
            assert(lex_lt(ps[0].0, ps[j + 1].0));
            lemma_lex_trichotomy(ps[0].0, ps[j + 1].0);
        }
        assert(ps =~= seq![ps[0]] + tail);
        lemma_map_of_prepend(ps[0], tail);
        assert(map_of(tail).insert(k, v).insert(ps[0].0, ps[0].1) =~= map_of(tail).insert(
            ps[0].0,
            ps[0].1,
        ).insert(k, v));
    }
}

/// The map a built pair list denotes is the fold of escaped insertions.
pub proof fn lemma_insert_all_map(ps: Seq<(Seq<char>, Seq<char>)>, src: Seq<(Seq<char>, Seq<char>)>)
    requires
        strictly_sorted(ps),
    ensures
        map_of(insert_all(ps, src)) == map_with(map_of(ps), src),
    decreases src.len(),
{
    if src.len() > 0 {
        lemma_insert_all_map(ps, src.drop_last());
        lemma_insert_all_sorted(ps, src.drop_last());
        lemma_sorted_insert_map(
            insert_all(ps, src.drop_last()),
            escape_seq(src.last().0),
            escape_seq(src.last().1),
        );
    }
}

/// Inserting a concatenation of sources into a map, segment by segment.
pub proof fn lemma_map_with_concat(
    m: Map<Seq<char>, Seq<char>>,
    a: Seq<(Seq<char>, Seq<char>)>,
    b: Seq<(Seq<char>, Seq<char>)>,
)
    ensures
        map_with(m, a + b) == map_with(map_with(m, a), b),
    decreases b.len(),
{
    if b.len() == 0 {
        assert(a + b =~= a);
    } else {
        assert((a + b).drop_last() =~= a + b.drop_last());
        assert((a + b).last() == b.last());
        lemma_map_with_concat(m, a, b.drop_last());
    }
}

/// What one source segment does to the map: a key it contributes ends
/// at the value of its last pair with that key; any other key is left
/// exactly as it was.
pub proof fn lemma_map_with_get(
    m: Map<Seq<char>, Seq<char>>,
    src: Seq<(Seq<char>, Seq<char>)>,
    k: Seq<char>,
)
    ensures
        keys_of(src).contains(k) ==> map_with(m, src).contains_key(k) && map_with(m, src)[k]
            == last_value(src, k),
        !keys_of(src).contains(k) ==> (map_with(m, src).contains_key(k) <==> m.contains_key(k)),
        !keys_of(src).contains(k) && m.contains_key(k) ==> map_with(m, src)[k] == m[k],
    decreases src.len(),
{
    if src.len() > 0 {
        lemma_map_with_get(m, src.drop_last(), k);
    }
}

/// The domain after a segment: the old keys plus the segment's keys.
pub proof fn lemma_map_with_dom(m: Map<Seq<char>, Seq<char>>, src: Seq<(Seq<char>, Seq<char>)>)
    ensures
        map_with(m, src).dom() == m.dom().union(keys_of(src)),
    decreases src.len(),
{
    if src.len() == 0 {
        assert(m.dom().union(keys_of(src)) =~= m.dom());
    } else {
        lemma_map_with_dom(m, src.drop_last());
        assert(map_with(m, src).dom() =~= m.dom().union(keys_of(src)));
    }
}

/// The canonical output map of one encode call.
pub open spec fn output_map(rec: Record, extra: Seq<(String, String)>) -> Map<Seq<char>, Seq<char>> {
    map_of(build_pairs(all_source(rec, extra)))
}

/// The set of keys in the LTSV output is exactly the union of the
/// structured-data keys (underscore-stripped, escaped), the extra-field
/// keys (likewise), and the fixed keys of the fields the record
/// carries; and, the keys being strictly sorted, each appears once.
pub proof fn lemma_output_key_set(rec: Record, extra: Seq<(String, String)>)
    ensures
        output_map(rec, extra).dom() == keys_of(sd_source(rec.sd)).union(
            keys_of(extra_source(extra)),
        ).union(keys_of(fixed_source(rec))),
{
    let e = Seq::<(Seq<char>, Seq<char>)>::empty();
    lemma_insert_all_map(e, all_source(rec, extra));
    assert(map_of(e) == Map::<Seq<char>, Seq<char>>::empty());
    let sd = sd_source(rec.sd);
    let ex = extra_source(extra);
    let fx = fixed_source(rec);
    lemma_map_with_concat(map_of(e), sd + ex, fx);
    lemma_map_with_concat(map_of(e), sd, ex);
    let m1 = map_with(map_of(e), sd);
    let m2 = map_with(m1, ex);
    lemma_map_with_dom(map_of(e), sd);
    lemma_map_with_dom(m1, ex);
    lemma_map_with_dom(m2, fx);
    assert(output_map(rec, extra).dom() =~= keys_of(sd).union(keys_of(ex)).union(keys_of(fx)));
}

/// The fixed keys of a record, by name: `host` and `time` always, each
/// of the others exactly when the record carries the field.
pub open spec fn fixed_key_set(rec: Record) -> Set<Seq<char>> {
    set![key_host(), key_time()].union(
        if rec.msg is Some {
            set![key_message()]
        } else {
            Set::empty()
        },
    ).union(
        if rec.full_msg is Some {
            set![key_full_message()]
        } else {
            Set::empty()
        },
    ).union(
        if rec.severity is Some {
            set![key_level()]
        } else {
            Set::empty()
        },
    ).union(
        if rec.facility is Some {
            set![key_facility()]
        } else {
            Set::empty()
        },
    ).union(
        if rec.appname is Some {
            set![key_appname()]
        } else {
            Set::empty()
        },
    ).union(
        if rec.procid is Some {
            set![key_procid()]
        } else {
            Set::empty()
        },
    ).union(
        if rec.msgid is Some {
            set![key_msgid()]
        } else {
            Set::empty()
        },
    )
}

proof fn lemma_keys_of_concat(a: Seq<(Seq<char>, Seq<char>)>, b: Seq<(Seq<char>, Seq<char>)>)
    ensures
        keys_of(a + b) == keys_of(a).union(keys_of(b)),
    decreases b.len(),
{
    if b.len() == 0 {
        assert(a + b =~= a);
        assert(keys_of(a).union(keys_of(b)) =~= keys_of(a));
    } else {
        assert((a + b).drop_last() =~= a + b.drop_last());
        assert((a + b).last() == b.last());
        lemma_keys_of_concat(a, b.drop_last());
        assert(keys_of(a + b) =~= keys_of(a).union(keys_of(b)));
    }
}

proof fn lemma_fixed_keys_unescaped()
    ensures
        escape_seq(key_host()) == key_host(),
        escape_seq(key_time()) == key_time(),
        escape_seq(key_message()) == key_message(),
        escape_seq(key_full_message()) == key_full_message(),
        escape_seq(key_level()) == key_level(),
        escape_seq(key_facility()) == key_facility(),
        escape_seq(key_appname()) == key_appname(),
        escape_seq(key_procid()) == key_procid(),
        escape_seq(key_msgid()) == key_msgid(),
{
    assert(escape_seq(key_host()) =~= key_host());
    assert(escape_seq(key_time()) =~= key_time());
    assert(escape_seq(key_message()) =~= key_message());
    assert(escape_seq(key_full_message()) =~= key_full_message());
    assert(escape_seq(key_level()) =~= key_level());
    assert(escape_seq(key_facility()) =~= key_facility());
    assert(escape_seq(key_appname()) =~= key_appname());
    assert(escape_seq(key_procid()) =~= key_procid());
    assert(escape_seq(key_msgid()) =~= key_msgid());
}

proof fn lemma_keys_of_opt_str(key: Seq<char>, v: Option<String>)
    requires
        escape_seq(key) == key,
    ensures
        keys_of(opt_str_pair(key, v)) == (if v is Some {
            set![key]
        } else {
            Set::<Seq<char>>::empty()
        }),
{
    match v {
        Some(s) => {
            let q = opt_str_pair(key, v);
            assert(q.drop_last() =~= Seq::<(Seq<char>, Seq<char>)>::empty());
            assert(q.last() == (key, s@));
            assert(keys_of(q) == keys_of(q.drop_last()).insert(escape_seq(q.last().0)));
            assert(keys_of(Seq::<(Seq<char>, Seq<char>)>::empty()) == Set::<Seq<char>>::empty());
            assert(keys_of(q) =~= set![key]);
        },
        None => {
        },
    }
}

proof fn lemma_keys_of_opt_num(key: Seq<char>, v: Option<u8>)
    requires
        escape_seq(key) == key,
    ensures
        keys_of(opt_num_pair(key, v)) == (if v is Some {
            set![key]
        } else {
            Set::<Seq<char>>::empty()
        }),
{
    match v {
        Some(n) => {
            let q = opt_num_pair(key, v);
            assert(q.drop_last() =~= Seq::<(Seq<char>, Seq<char>)>::empty());
            assert(q.last() == (key, crate::text::dec_chars(n as nat)));
            assert(keys_of(q) == keys_of(q.drop_last()).insert(escape_seq(q.last().0)));
            assert(keys_of(Seq::<(Seq<char>, Seq<char>)>::empty()) == Set::<Seq<char>>::empty());
            assert(keys_of(q) =~= set![key]);
        },
        None => {
        },
    }
}

/// The fixed keys a record contributes are exactly the named set.
pub proof fn lemma_fixed_source_keys(rec: Record)
    ensures
        keys_of(fixed_source(rec)) == fixed_key_set(rec),
{
    lemma_fixed_keys_unescaped();
    let base = seq![(key_host(), rec.hostname@), (key_time(), rec.ts@)];
    assert(keys_of(base) =~= set![key_host(), key_time()]) by {
        let b1 = seq![(key_host(), rec.hostname@)];
        assert(base.drop_last() =~= b1);
        assert(base.last() == (key_time(), rec.ts@));
        assert(keys_of(base) == keys_of(base.drop_last()).insert(escape_seq(base.last().0)));
        assert(b1.drop_last() =~= Seq::<(Seq<char>, Seq<char>)>::empty());
        assert(b1.last() == (key_host(), rec.hostname@));
        assert(keys_of(b1) == keys_of(b1.drop_last()).insert(escape_seq(b1.last().0)));
        assert(keys_of(Seq::<(Seq<char>, Seq<char>)>::empty()) == Set::<Seq<char>>::empty());
    }
    lemma_keys_of_opt_str(key_message(), rec.msg);
    lemma_keys_of_opt_str(key_full_message(), rec.full_msg);
    lemma_keys_of_opt_num(key_level(), rec.severity);
    lemma_keys_of_opt_num(key_facility(), rec.facility);
    lemma_keys_of_opt_str(key_appname(), rec.appname);
    lemma_keys_of_opt_str(key_procid(), rec.procid);
    lemma_keys_of_opt_str(key_msgid(), rec.msgid);
    lemma_keys_of_concat(base, opt_str_pair(key_message(), rec.msg));
    lemma_keys_of_concat(
        base + opt_str_pair(key_message(), rec.msg),
        opt_str_pair(key_full_message(), rec.full_msg),
    );
    let head = fixed_source_head(rec);
    lemma_keys_of_concat(opt_num_pair(key_level(), rec.severity), opt_num_pair(key_facility(), rec.facility));
    lemma_keys_of_concat(
        opt_num_pair(key_level(), rec.severity) + opt_num_pair(key_facility(), rec.facility),
        opt_str_pair(key_appname(), rec.appname),
    );
    lemma_keys_of_concat(
        opt_num_pair(key_level(), rec.severity) + opt_num_pair(key_facility(), rec.facility)
            + opt_str_pair(key_appname(), rec.appname),
        opt_str_pair(key_procid(), rec.procid),
    );
    lemma_keys_of_concat(
        opt_num_pair(key_level(), rec.severity) + opt_num_pair(key_facility(), rec.facility)
            + opt_str_pair(key_appname(), rec.appname) + opt_str_pair(key_procid(), rec.procid),
        opt_str_pair(key_msgid(), rec.msgid),
    );
    let tail = fixed_source_tail(rec);
    lemma_keys_of_concat(head, tail);
    assert(keys_of(fixed_source(rec)) =~= fixed_key_set(rec));
}

proof fn lemma_last_value_concat(
    a: Seq<(Seq<char>, Seq<char>)>,
    b: Seq<(Seq<char>, Seq<char>)>,
    k: Seq<char>,
)
    ensures
        keys_of(b).contains(k) ==> last_value(a + b, k) == last_value(b, k),
        !keys_of(b).contains(k) ==> last_value(a + b, k) == last_value(a, k),
    decreases b.len(),
{
    if b.len() == 0 {
        assert(a + b =~= a);
    } else {
        assert((a + b).drop_last() =~= a + b.drop_last());
        assert((a + b).last() == b.last());
        lemma_last_value_concat(a, b.drop_last(), k);
    }
}

/// The fixed keys `host` and `time` always stand in the output, bound
/// to the record's own escaped hostname and timestamp text, whatever
/// the structured data and the extra fields say.
pub proof fn lemma_output_host_time(rec: Record, extra: Seq<(String, String)>)
    ensures
        output_map(rec, extra).contains_key(key_host()),
        output_map(rec, extra)[key_host()] == escape_seq(rec.hostname@),
        output_map(rec, extra).contains_key(key_time()),
        output_map(rec, extra)[key_time()] == escape_seq(rec.ts@),
{
    lemma_fixed_keys_unescaped();
    lemma_fixed_source_keys(rec);
    assert(key_host() != key_time()) by {
        assert(key_host()[0] == 'h');
        assert(key_time()[0] == 't');
    }
    assert(key_host().len() == 4 && key_time().len() == 4);
    assert(key_message().len() == 7 && key_full_message().len() == 12 && key_level().len() == 5
        && key_facility().len() == 8 && key_appname().len() == 7 && key_procid().len() == 6
        && key_msgid().len() == 5);
    assert(keys_of(fixed_source(rec)).contains(key_host()));
    assert(keys_of(fixed_source(rec)).contains(key_time()));
    lemma_output_precedence(rec, extra, key_host());
    lemma_output_precedence(rec, extra, key_time());
    let base = seq![(key_host(), rec.hostname@), (key_time(), rec.ts@)];
    let optmsg = opt_str_pair(key_message(), rec.msg);
    let optfull = opt_str_pair(key_full_message(), rec.full_msg);
    let head = fixed_source_head(rec);
    let tail = fixed_source_tail(rec);
    lemma_keys_of_opt_str(key_message(), rec.msg);
    lemma_keys_of_opt_str(key_full_message(), rec.full_msg);
    lemma_keys_of_opt_num(key_level(), rec.severity);
    lemma_keys_of_opt_num(key_facility(), rec.facility);
    lemma_keys_of_opt_str(key_appname(), rec.appname);
    lemma_keys_of_opt_str(key_procid(), rec.procid);
    lemma_keys_of_opt_str(key_msgid(), rec.msgid);
    lemma_keys_of_concat(
        opt_num_pair(key_level(), rec.severity),
        opt_num_pair(key_facility(), rec.facility),
    );
    lemma_keys_of_concat(
        opt_num_pair(key_level(), rec.severity) + opt_num_pair(key_facility(), rec.facility),
        opt_str_pair(key_appname(), rec.appname),
    );
    lemma_keys_of_concat(
        opt_num_pair(key_level(), rec.severity) + opt_num_pair(key_facility(), rec.facility)
            + opt_str_pair(key_appname(), rec.appname),
        opt_str_pair(key_procid(), rec.procid),
    );
    lemma_keys_of_concat(
        opt_num_pair(key_level(), rec.severity) + opt_num_pair(key_facility(), rec.facility)
            + opt_str_pair(key_appname(), rec.appname) + opt_str_pair(key_procid(), rec.procid),
        opt_str_pair(key_msgid(), rec.msgid),
    );
    assert(!keys_of(tail).contains(key_host()));
    assert(!keys_of(tail).contains(key_time()));
    lemma_last_value_concat(head, tail, key_host());
    lemma_last_value_concat(head, tail, key_time());
    lemma_last_value_concat(base + optmsg, optfull, key_host());
    lemma_last_value_concat(base + optmsg, optfull, key_time());
    lemma_last_value_concat(base, optmsg, key_host());
    lemma_last_value_concat(base, optmsg, key_time());
    assert(base.last() == (key_time(), rec.ts@));
    assert(base.drop_last() =~= seq![(key_host(), rec.hostname@)]);
    assert(last_value(base, key_time()) == escape_seq(rec.ts@));
    assert(seq![(key_host(), rec.hostname@)].last() == (key_host(), rec.hostname@));
    assert(last_value(base, key_host()) == last_value(seq![(key_host(), rec.hostname@)], key_host()));
    assert(last_value(base, key_host()) == escape_seq(rec.hostname@));
}

/// Precedence among the three sources of one final key `k`: a fixed
/// key always wins; an extra-field key beats a structured-data key; a
/// key only structured data contributes keeps its last
/// structured-data value. Values are as escaped on insertion.
pub proof fn lemma_output_precedence(rec: Record, extra: Seq<(String, String)>, k: Seq<char>)
    ensures
        keys_of(fixed_source(rec)).contains(k) ==> output_map(rec, extra).contains_key(k)
            && output_map(rec, extra)[k] == last_value(fixed_source(rec), k),
        !keys_of(fixed_source(rec)).contains(k) && keys_of(extra_source(extra)).contains(k)
            ==> output_map(rec, extra).contains_key(k) && output_map(rec, extra)[k] == last_value(
            extra_source(extra),
            k,
        ),
        !keys_of(fixed_source(rec)).contains(k) && !keys_of(extra_source(extra)).contains(k)
            && keys_of(sd_source(rec.sd)).contains(k) ==> output_map(rec, extra).contains_key(k)
            && output_map(rec, extra)[k] == last_value(sd_source(rec.sd), k),
{
    let e = Seq::<(Seq<char>, Seq<char>)>::empty();
    lemma_insert_all_map(e, all_source(rec, extra));
    assert(map_of(e) == Map::<Seq<char>, Seq<char>>::empty());
    let sd = sd_source(rec.sd);
    let ex = extra_source(extra);
    let fx = fixed_source(rec);
    lemma_map_with_concat(map_of(e), sd + ex, fx);
    lemma_map_with_concat(map_of(e), sd, ex);
    let m1 = map_with(map_of(e), sd);
    let m2 = map_with(m1, ex);
    lemma_map_with_get(map_of(e), sd, k);
    lemma_map_with_get(m1, ex, k);
    lemma_map_with_get(m2, fx, k);
}

} // verus!
