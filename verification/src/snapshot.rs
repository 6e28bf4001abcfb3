use vstd::prelude::*;

verus! {

use crate::digits::dec_of;
use crate::digits::dec_rep;
use crate::digits::is_digit;
use crate::digits::lemma_dec_rep_digits;
use crate::digits::lemma_dec_round_trip;
use crate::digits::parse_decimal;
use crate::text::PersistText;
use crate::text::find_ch;
use crate::text::find_char;
use crate::text::lemma_find_ch;
use crate::text::lemma_find_ch_unique;
use vstd::string::StrSliceExecFns;

/// What one snapshot line holds.
pub enum LineParse<A, B> {
    /// The line lacks a tab or an equals separator and is ignored.
    Skip,
    /// A key, value, or stamp field does not decode; the whole load is
    /// abandoned.
    Fail,
    /// One record: key, value, stamp.
    Entry(A, B, u64),
}

/// `t` holds none of the three characters the snapshot format reserves
/// as delimiters.
pub open spec fn delimiter_free(t: Seq<char>) -> bool {
    forall|i: int|
        0 <= i < t.len() ==> (#[trigger] t[i]) != '=' && t[i] != '\t' && t[i] != '\n'
}

/// Both encoded fields of the record are free of delimiter characters,
/// as the format requires of callers.
pub open spec fn clean_rec<K: PersistText, V: PersistText>(e: (K::V, V::V, u64)) -> bool {
    delimiter_free(K::text_of(e.0)) && delimiter_free(V::text_of(e.1))
}

/// The body of one record line: `key=value<TAB>stamp`.
pub open spec fn body_text<K: PersistText, V: PersistText>(e: (K::V, V::V, u64)) -> Seq<char> {
    K::text_of(e.0) + seq!['='] + V::text_of(e.1) + seq!['\t'] + dec_rep(e.2 as nat)
}

/// One full record line, newline-terminated.
pub open spec fn line_text<K: PersistText, V: PersistText>(e: (K::V, V::V, u64)) -> Seq<char> {
    body_text::<K, V>(e).push('\n')
}

/// The whole snapshot text: one line per record, in the given order.
pub open spec fn render<K: PersistText, V: PersistText>(es: Seq<(K::V, V::V, u64)>) -> Seq<char>
    decreases es.len(),
{
    if es.len() == 0 {
        Seq::empty()
    } else {
        line_text::<K, V>(es[0]) + render::<K, V>(es.drop_first())
    }
}

/// How one line parses: split once at the first tab, split the left part
/// once at the first equals sign, then decode key, value, and stamp.
pub open spec fn parse_line<K: PersistText, V: PersistText>(line: Seq<char>) -> LineParse<
    K::V,
    V::V,
> {
    let tb = find_ch(line, '\t');
    if tb == line.len() {
        LineParse::Skip
    } else {
        let kv = line.take(tb);
        let stext = line.subrange(tb + 1, line.len() as int);
        let eq = find_ch(kv, '=');
        if eq == kv.len() {
            LineParse::Skip
        } else {
            let ktext = kv.take(eq);
            let vtext = kv.subrange(eq + 1, kv.len() as int);
            match (K::of_text(ktext), V::of_text(vtext), dec_of(stext)) {
                (Some(k), Some(v), Some(q)) => LineParse::Entry(k, v, q),
                _ => LineParse::Fail,
            }
        }
    }
}

/// The records of a snapshot text, in order. `None` when a line carries
/// a field that does not decode; lines without both separators are
/// skipped.
pub open spec fn parse_records<K: PersistText, V: PersistText>(t: Seq<char>) -> Option<
    Seq<(K::V, V::V, u64)>,
>
    decreases t.len(),
        via parse_records_dec::<K, V>
{
    if t.len() == 0 {
        Some(Seq::empty())
    } else {
        let nl = find_ch(t, '\n');
        let line = t.take(nl);
        let rest = if nl == t.len() {
            Seq::empty()
        } else {
            t.subrange(nl + 1, t.len() as int)
        };
        match (parse_line::<K, V>(line), parse_records::<K, V>(rest)) {
            (LineParse::Fail, _) => None,
            (_, None) => None,
            (LineParse::Skip, Some(es)) => Some(es),
            (LineParse::Entry(k, v, q), Some(es)) => Some(seq![(k, v, q)] + es),
        }
    }
}

#[via_fn]
proof fn parse_records_dec<K: PersistText, V: PersistText>(t: Seq<char>) {
    if t.len() > 0 {
        lemma_find_ch(t, '\n');
    }
}

/// Folds records into contents, later records overriding earlier ones.
pub open spec fn apply_records<KV, VV>(
    m: Map<KV, (VV, u64)>,
    es: Seq<(KV, VV, u64)>,
) -> Map<KV, (VV, u64)>
    decreases es.len(),
{
    if es.len() == 0 {
        m
    } else {
        apply_records(m.insert(es[0].0, (es[0].1, es[0].2)), es.drop_first())
    }
}

/// The largest stamp among `es`, and at least `c`.
pub open spec fn max_stamp<KV, VV>(c: u64, es: Seq<(KV, VV, u64)>) -> u64
    decreases es.len(),
{
    if es.len() == 0 {
        c
    } else {
        max_stamp(
            if es[0].2 > c {
                es[0].2
            } else {
                c
            },
            es.drop_first(),
        )
    }
}

/// `es` lists the contents `m`, each entry exactly once, in ascending
/// stamp order.
pub open spec fn records_list<KV, VV>(m: Map<KV, (VV, u64)>, es: Seq<(KV, VV, u64)>) -> bool {
    &&& forall|i: int|
        0 <= i < es.len() ==> m.contains_key(#[trigger] es[i].0) && m[es[i].0] == (
            es[i].1,
            es[i].2,
        )
    &&& forall|i: int, j: int| 0 <= i < j < es.len() ==> es[i].0 != es[j].0
    &&& forall|i: int, j: int| 0 <= i < j < es.len() ==> es[i].2 <= es[j].2
    &&& forall|k: KV| #[trigger]
        m.contains_key(k) ==> exists|i: int| 0 <= i < es.len() && es[i].0 == k
}

/// Parses one line of a snapshot.
pub fn parse_line_exec<K: PersistText, V: PersistText>(line: &str) -> (r: LineParse<K, V>)
    ensures
        match r {
            LineParse::Skip => parse_line::<K, V>(line@) is Skip,
            LineParse::Fail => parse_line::<K, V>(line@) is Fail,
            LineParse::Entry(k, v, q) => parse_line::<K, V>(line@) == LineParse::<
                K::V,
                V::V,
            >::Entry(k@, v@, q),
        },
{
    let n = line.unicode_len();
    let tb = find_char(line, '\t');
    if tb == n {
        return LineParse::Skip;
    }
    let kv = line.substring_char(0, tb);
    let stext = line.substring_char(tb + 1, n);
    let eq = find_char(kv, '=');
    proof {
        lemma_find_ch(line@, '\t');
        assert(kv@ == line@.take(tb as int));
    }
    if eq == tb {
        return LineParse::Skip;
    }
    let ktext = kv.substring_char(0, eq);
    let vtext = kv.substring_char(eq + 1, tb);
    proof {
        lemma_find_ch(kv@, '=');
    }
    let k = K::from_text(ktext);
    let v = V::from_text(vtext);
    let q = parse_decimal(stext);
    match (k, v, q) {
        (Some(k), Some(v), Some(q)) => LineParse::Entry(k, v, q),
        _ => LineParse::Fail,
    }
}

/// A delimiter-free record renders to a body without newlines.
proof fn lemma_body_no_newline<K: PersistText, V: PersistText>(e: (K::V, V::V, u64))
    requires
        clean_rec::<K, V>(e),
    ensures
        forall|i: int| 0 <= i < body_text::<K, V>(e).len() ==> body_text::<K, V>(e)[i] != '\n',
{
    let kt = K::text_of(e.0);
    let vt = V::text_of(e.1);
    let dd = dec_rep(e.2 as nat);
    let body = body_text::<K, V>(e);
    lemma_dec_rep_digits(e.2 as nat);
    assert forall|i: int| 0 <= i < body.len() implies body[i] != '\n' by {
        let kl = kt.len() as int;
        let vl = vt.len() as int;
        if i < kl {
            assert(body[i] == kt[i]);
        } else if i == kl {
            assert(body[i] == '=');
        } else if i < kl + 1 + vl {
            assert(body[i] == vt[i - kl - 1]);
        } else if i == kl + 1 + vl {
            assert(body[i] == '\t');
        } else {
            assert(body[i] == dd[i - (kl + 1 + vl + 1)]);
            assert(is_digit(dd[i - (kl + 1 + vl + 1)]));
        }
    }
}

/// Parsing the body of a rendered line recovers the record.
proof fn lemma_line_round_trip<K: PersistText, V: PersistText>(e: (K::V, V::V, u64))
    requires
        clean_rec::<K, V>(e),
    ensures
        parse_line::<K, V>(body_text::<K, V>(e)) == LineParse::<K::V, V::V>::Entry(
            e.0,
            e.1,
            e.2,
        ),
{
    let kt = K::text_of(e.0);
    let vt = V::text_of(e.1);
    let dd = dec_rep(e.2 as nat);
    let body = body_text::<K, V>(e);
    let kl = kt.len() as int;
    let vl = vt.len() as int;
    lemma_dec_rep_digits(e.2 as nat);
    // the first tab stands between the value text and the stamp
    let p = kl + 1 + vl;
    assert(body[p] == '\t');
    assert forall|i: int| 0 <= i < p implies body[i] != '\t' by {
        if i < kl {
            assert(body[i] == kt[i]);
        } else if i == kl {
            assert(body[i] == '=');
        } else {
            assert(body[i] == vt[i - kl - 1]);
        }
    }
    lemma_find_ch_unique(body, '\t', p);
    let kv = body.take(p);
    assert(kv =~= kt + seq!['='] + vt);
    assert(body.subrange(p + 1, body.len() as int) =~= dd);
    // the first equals sign stands right after the key text
    assert(kv[kl] == '=');
    assert forall|i: int| 0 <= i < kl implies kv[i] != '=' by {
        assert(kv[i] == kt[i]);
    }
    lemma_find_ch_unique(kv, '=', kl);
    assert(kv.take(kl) =~= kt);
    assert(kv.subrange(kl + 1, kv.len() as int) =~= vt);
    K::lemma_codec_round_trip(e.0);
    V::lemma_codec_round_trip(e.1);
    lemma_dec_round_trip(e.2);
}

/// Parsing a rendered snapshot yields exactly the rendered records.
pub proof fn lemma_render_round_trip<K: PersistText, V: PersistText>(es: Seq<(K::V, V::V, u64)>)
    requires
        forall|i: int| 0 <= i < es.len() ==> clean_rec::<K, V>(#[trigger] es[i]),
    ensures
        parse_records::<K, V>(render::<K, V>(es)) == Some(es),
    decreases es.len(),
{
    if es.len() == 0 {
        assert(render::<K, V>(es) =~= Seq::<char>::empty());
        assert(parse_records::<K, V>(render::<K, V>(es)) == Some(Seq::<(K::V, V::V, u64)>::empty()));
        assert(es =~= Seq::<(K::V, V::V, u64)>::empty());
    } else {
        let e = es[0];
        let body = body_text::<K, V>(e);
        let tail = render::<K, V>(es.drop_first());
        let t = render::<K, V>(es);
        assert(t == line_text::<K, V>(e) + tail);
        lemma_body_no_newline::<K, V>(e);
        let bl = body.len() as int;
        assert(t[bl] == '\n');
        assert forall|i: int| 0 <= i < bl implies t[i] != '\n' by {
            assert(t[i] == body[i]);
        }
        lemma_find_ch_unique(t, '\n', bl);
        assert(t.take(bl) =~= body);
        assert(t.subrange(bl + 1, t.len() as int) =~= tail);
        lemma_line_round_trip::<K, V>(e);
        assert forall|i: int|
            0 <= i < es.drop_first().len() implies clean_rec::<K, V>(
            #[trigger] es.drop_first()[i],
        ) by {
            assert(es.drop_first()[i] == es[i + 1]);
        }
        lemma_render_round_trip::<K, V>(es.drop_first());
        assert(seq![(e.0, e.1, e.2)] + es.drop_first() =~= es);
    }
}

/// Appending a record to the fold inserts its entry.
pub proof fn lemma_apply_push<KV, VV>(
    m: Map<KV, (VV, u64)>,
    es: Seq<(KV, VV, u64)>,
    e: (KV, VV, u64),
)
    ensures
        apply_records(m, es.push(e)) == apply_records(m, es).insert(e.0, (e.1, e.2)),
    decreases es.len(),
{
    if es.len() == 0 {
        assert(es.push(e).drop_first() =~= Seq::<(KV, VV, u64)>::empty());
        assert(es.push(e)[0] == e);
        assert(apply_records(m.insert(e.0, (e.1, e.2)), Seq::<(KV, VV, u64)>::empty())
            == m.insert(e.0, (e.1, e.2)));
        assert(apply_records(m, Seq::<(KV, VV, u64)>::empty()) == m);
    } else {
        assert(es.push(e).drop_first() =~= es.drop_first().push(e));
        assert(es.push(e)[0] == es[0]);
        lemma_apply_push(m.insert(es[0].0, (es[0].1, es[0].2)), es.drop_first(), e);
    }
}

/// Appending a record to the fold takes the larger stamp.
pub proof fn lemma_max_stamp_push<KV, VV>(c: u64, es: Seq<(KV, VV, u64)>, e: (KV, VV, u64))
    ensures
        max_stamp(c, es.push(e)) == (if e.2 > max_stamp(c, es) {
            e.2
        } else {
            max_stamp(c, es)
        }),
    decreases es.len(),
{
    if es.len() == 0 {
        assert(es.push(e).drop_first() =~= Seq::<(KV, VV, u64)>::empty());
        assert(es.push(e)[0] == e);
        assert(max_stamp(
            if e.2 > c {
                e.2
            } else {
                c
            },
            Seq::<(KV, VV, u64)>::empty(),
        ) == if e.2 > c {
            e.2
        } else {
            c
        });
        assert(max_stamp(c, Seq::<(KV, VV, u64)>::empty()) == c);
    } else {
        assert(es.push(e).drop_first() =~= es.drop_first().push(e));
        assert(es.push(e)[0] == es[0]);
        lemma_max_stamp_push(
            if es[0].2 > c {
                es[0].2
            } else {
                c
            },
            es.drop_first(),
            e,
        );
    }
}

/// Folding a listing of `m` from the empty contents rebuilds `m`.
pub proof fn lemma_apply_of_list<KV, VV>(m: Map<KV, (VV, u64)>, es: Seq<(KV, VV, u64)>)
    requires
        records_list(m, es),
    ensures
        apply_records(Map::<KV, (VV, u64)>::empty(), es) == m,
    decreases es.len(),
{
    if es.len() == 0 {
        assert forall|k: KV| !(#[trigger] m.contains_key(k)) by {
            if m.contains_key(k) {
                let i = choose|i: int| 0 <= i < es.len() && es[i].0 == k;
                assert(false);
            }
        }
        assert(m =~= Map::<KV, (VV, u64)>::empty());
    } else {
        let e = es.last();
        let es0 = es.drop_last();
        let m0 = m.remove(e.0);
        assert forall|i: int|
            0 <= i < es0.len() implies m0.contains_key(#[trigger] es0[i].0) && m0[es0[i].0] == (
            es0[i].1,
            es0[i].2,
        ) by {
            assert(es0[i] == es[i]);
            assert(es[i].0 != e.0);
        }
        assert forall|k: KV| #[trigger]
            m0.contains_key(k) implies exists|i: int| 0 <= i < es0.len() && es0[i].0 == k by {
            let i = choose|i: int| 0 <= i < es.len() && es[i].0 == k;
            assert(i < es.len() - 1);
            assert(es0[i].0 == k);
        }
        assert(records_list(m0, es0));
        lemma_apply_of_list(m0, es0);
        lemma_apply_push(Map::<KV, (VV, u64)>::empty(), es0, e);
        assert(es0.push(e) =~= es);
        assert(m0.insert(e.0, (e.1, e.2)) =~= m);
    }
}

/// Appending a record extends the rendered text by its line.
pub proof fn lemma_render_push<K: PersistText, V: PersistText>(
    es: Seq<(K::V, V::V, u64)>,
    e: (K::V, V::V, u64),
)
    ensures
        render::<K, V>(es.push(e)) == render::<K, V>(es) + line_text::<K, V>(e),
    decreases es.len(),
{
    if es.len() == 0 {
        assert(es.push(e).drop_first() =~= Seq::<(K::V, V::V, u64)>::empty());
        assert(es.push(e)[0] == e);
        assert(render::<K, V>(Seq::<(K::V, V::V, u64)>::empty()) == Seq::<char>::empty());
        assert(render::<K, V>(es.push(e)) == line_text::<K, V>(e) + Seq::<char>::empty());
        assert(render::<K, V>(es.push(e)) =~= render::<K, V>(es) + line_text::<K, V>(e));
    } else {
        assert(es.push(e).drop_first() =~= es.drop_first().push(e));
        assert(es.push(e)[0] == es[0]);
        lemma_render_push::<K, V>(es.drop_first(), e);
        assert(line_text::<K, V>(es[0]) + (render::<K, V>(es.drop_first()) + line_text::<
            K,
            V,
        >(e)) =~= (line_text::<K, V>(es[0]) + render::<K, V>(es.drop_first())) + line_text::<
            K,
            V,
        >(e));
    }
}

/// No stamp among `es` exceeds the running maximum.
pub proof fn lemma_max_stamp_ge<KV, VV>(c: u64, es: Seq<(KV, VV, u64)>)
    ensures
        max_stamp(c, es) >= c,
        forall|i: int| 0 <= i < es.len() ==> max_stamp(c, es) >= (#[trigger] es[i]).2,
    decreases es.len(),
{
    if es.len() > 0 {
        lemma_max_stamp_ge(
            if es[0].2 > c {
                es[0].2
            } else {
                c
            },
            es.drop_first(),
        );
        assert forall|i: int| 0 <= i < es.len() implies max_stamp(c, es) >= (#[trigger] es[i]).2 by {
            if i > 0 {
                assert(es.drop_first()[i - 1] == es[i]);
            }
        }
    }
}

/// Round trip: a snapshot rendered from a listing of the contents parses
/// back to exactly those records, and folding them rebuilds the
/// contents. A cache loaded from the snapshot therefore holds every
/// entry with its original stamp, keeps the relative recency order, and
/// resumes its counter at or above every stamp.
pub proof fn lemma_snapshot_round_trip<K: PersistText, V: PersistText>(
    m: Map<K::V, (V::V, u64)>,
    es: Seq<(K::V, V::V, u64)>,
)
    requires
        records_list(m, es),
        forall|i: int| 0 <= i < es.len() ==> clean_rec::<K, V>(#[trigger] es[i]),
    ensures
        parse_records::<K, V>(render::<K, V>(es)) == Some(es),
        apply_records(Map::<K::V, (V::V, u64)>::empty(), es) == m,
        crate::model::stamps_bounded(m, max_stamp(0, es)),
{
    lemma_render_round_trip::<K, V>(es);
    lemma_apply_of_list(m, es);
    lemma_max_stamp_ge(0, es);
    assert forall|k: K::V| #[trigger] m.contains_key(k) implies m[k].1 <= max_stamp(0, es) by {
        let i = choose|i: int| 0 <= i < es.len() && es[i].0 == k;
        assert(m[es[i].0] == (es[i].1, es[i].2));
    }
}

} // verus!
