//! Applying text edits (fills) to a buffer: edits go latest-first, so that an edit
//! never shifts the offsets of the edits still to come.

use vstd::prelude::*;
use crate::builtins::string_from_chars;
use crate::model::TextEdit;
use crate::fend::opt_view;
use crate::text::{byte_index, byte_len, chars_before, chars_of, is_boundary, locate, lemma_byte_index_mono, lemma_byte_index_prefix, lemma_chars_before_prefix};

verus! {

/// An edit as plain values: start byte, end byte, replacement text.
pub type EditV = (u32, u32, Seq<char>);

/// The plain view of an edit.
pub open spec fn edit_view(e: TextEdit) -> EditV {
    (e.span.start.offset, e.span.end.offset, e.new_text@)
}

/// The plain views of a list of edits.
pub open spec fn edits_view(es: Seq<TextEdit>) -> Seq<EditV> {
    es.map_values(|e: TextEdit| edit_view(e))
}

/// How many leading edits of `sorted` start at or after `start`.
pub open spec fn lead_ge(sorted: Seq<EditV>, start: u32) -> nat
    decreases sorted.len(),
{
    if sorted.len() == 0 || sorted[0].0 < start {
        0
    } else {
        1 + lead_ge(sorted.skip(1), start)
    }
}

/// Inserts `e` into a list ordered by decreasing start, after every edit that starts at
/// or after it.
pub open spec fn insert_desc(sorted: Seq<EditV>, e: EditV) -> Seq<EditV> {
    let k = lead_ge(sorted, e.0) as int;
    sorted.take(k) + seq![e] + sorted.skip(k)
}

/// The edits ordered by decreasing start offset; edits with the same start keep their
/// relative order.
pub open spec fn sort_desc(es: Seq<EditV>) -> Seq<EditV>
    decreases es.len(),
{
    if es.len() == 0 {
        Seq::empty()
    } else {
        insert_desc(sort_desc(es.drop_last()), es.last())
    }
}

/// One edit applied to `s`: an edit whose range is out of bounds or reversed is
/// skipped; one whose ends are not both character boundaries cannot be applied (`None`).
pub open spec fn apply_one(s: Seq<char>, e: EditV) -> Option<Seq<char>> {
    let (start, end, t) = e;
    if start <= byte_len(s) && end <= byte_len(s) && start <= end {
        if is_boundary(s, start as int) && is_boundary(s, end as int) {
            Some(s.take(chars_before(s, start as int) as int) + t + s.skip(chars_before(s, end as int) as int))
        } else {
            None
        }
    } else {
        Some(s)
    }
}

/// The edits applied one after the other, first to last.
pub open spec fn apply_all(s: Seq<char>, es: Seq<EditV>) -> Option<Seq<char>>
    decreases es.len(),
{
    if es.len() == 0 {
        Some(s)
    } else {
        match apply_all(s, es.drop_last()) {
            Some(t) => apply_one(t, es.last()),
            None => None,
        }
    }
}

/// The buffer after the edits, applied latest-first.
pub open spec fn spec_apply_edits(text: Seq<char>, edits: Seq<EditV>) -> Option<Seq<char>> {
    apply_all(text, sort_desc(edits))
}


/// What `lead_ge` counts: the leading edits that start at or after `start`, up to the
/// first that starts before it.
proof fn lemma_lead_ge_facts(s: Seq<EditV>, start: u32)
    ensures
        lead_ge(s, start) <= s.len(),
        forall|j: int| 0 <= j < lead_ge(s, start) ==> (#[trigger] s[j]).0 >= start,
        lead_ge(s, start) < s.len() ==> s[lead_ge(s, start) as int].0 < start,
    decreases s.len(),
{
    if s.len() > 0 && s[0].0 >= start {
        let t = s.skip(1);
        lemma_lead_ge_facts(t, start);
        assert forall|j: int| 0 <= j < lead_ge(s, start) implies (#[trigger] s[j]).0 >= start by {
            if j > 0 {
                assert(s[j] == t[j - 1]);
            }
        }
        if lead_ge(s, start) < s.len() {
            assert(s[lead_ge(s, start) as int] == t[lead_ge(t, start) as int]);
        }
    }
}

/// Edits are applied latest start first: the order never goes back to a later start,
/// and it holds every edit exactly as often as it was given.
pub proof fn lemma_sort_desc(es: Seq<EditV>)
    ensures
        sort_desc(es).len() == es.len(),
        sort_desc(es).to_multiset() == es.to_multiset(),
        forall|i: int, j: int| 0 <= i < j < sort_desc(es).len() ==> (#[trigger] sort_desc(es)[i]).0 >= (#[trigger] sort_desc(es)[j]).0,
    decreases es.len(),
{
    broadcast use vstd::seq_lib::group_to_multiset_ensures;
    if es.len() > 0 {
        let prev = sort_desc(es.drop_last());
        let e = es.last();
        lemma_sort_desc(es.drop_last());
        lemma_lead_ge_facts(prev, e.0);
        let k = lead_ge(prev, e.0) as int;
        let r = sort_desc(es);
        assert(r =~= prev.insert(k, e));
        assert(es =~= es.drop_last().push(e));
        assert forall|i: int, j: int| 0 <= i < j < r.len() implies (#[trigger] r[i]).0 >= (#[trigger] r[j]).0 by {
            if j < k {
                assert(r[i] == prev[i] && r[j] == prev[j]);
            } else if j == k {
                assert(r[i] == prev[i]);
            } else if i < k {
                assert(r[i] == prev[i] && r[j] == prev[j - 1]);
                assert(prev[i].0 >= e.0);
                assert(prev[k].0 < e.0);
                if j - 1 > k {
                    assert(prev[k].0 >= prev[j - 1].0);
                }
            } else if i == k {
                assert(r[j] == prev[j - 1]);
                assert(prev[k].0 < e.0);
                if j - 1 > k {
                    assert(prev[k].0 >= prev[j - 1].0);
                }
            } else {
                assert(r[i] == prev[i - 1] && r[j] == prev[j - 1]);
            }
        }
    }
}

/// When `s[..p]` all start at or after `start` and `s[p]` (if any) starts before it,
/// exactly `p` leading edits qualify.
proof fn lemma_lead_ge(s: Seq<EditV>, start: u32, p: int)
    requires
        0 <= p <= s.len(),
        forall|j: int| 0 <= j < p ==> (#[trigger] s[j]).0 >= start,
        p < s.len() ==> s[p].0 < start,
    ensures
        lead_ge(s, start) == p,
    decreases p,
{
    if p > 0 {
        let t = s.skip(1);
        assert forall|j: int| 0 <= j < p - 1 implies (#[trigger] t[j]).0 >= start by {
            assert(t[j] == s[j + 1]);
        }
        if p - 1 < t.len() {
            assert(t[p - 1] == s[p]);
        }
        lemma_lead_ge(t, start, p - 1);
    }
}

/// Inserting `x` then `y`, where `x` starts after `y`, is inserting `y` then `x`.
proof fn lemma_insert_commute_gt(s: Seq<EditV>, x: EditV, y: EditV)
    requires
        x.0 > y.0,
    ensures
        insert_desc(insert_desc(s, x), y) == insert_desc(insert_desc(s, y), x),
{
    lemma_lead_ge_facts(s, x.0);
    lemma_lead_ge_facts(s, y.0);
    let kx = lead_ge(s, x.0) as int;
    let ky = lead_ge(s, y.0) as int;
    if ky < kx {
        assert(s[ky].0 >= x.0);
    }
    assert(kx <= ky);
    let s1 = insert_desc(s, x);
    let s2 = insert_desc(s, y);
    assert(s1 =~= s.take(kx) + seq![x] + s.skip(kx));
    assert(s2 =~= s.take(ky) + seq![y] + s.skip(ky));
    assert forall|j: int| 0 <= j < ky + 1 implies (#[trigger] s1[j]).0 >= y.0 by {
        if j < kx {
            assert(s1[j] == s[j]);
        } else if j > kx {
            assert(s1[j] == s[j - 1]);
        }
    }
    if ky + 1 < s1.len() {
        assert(s1[ky + 1] == s[ky]);
    }
    lemma_lead_ge(s1, y.0, ky + 1);
    assert forall|j: int| 0 <= j < kx implies (#[trigger] s2[j]).0 >= x.0 by {
        assert(s2[j] == s[j]);
    }
    if kx < s2.len() {
        if kx < ky {
            assert(s2[kx] == s[kx]);
        } else {
            assert(s2[kx] == y);
        }
    }
    lemma_lead_ge(s2, x.0, kx);
    assert(insert_desc(s1, y) =~= s.take(kx) + seq![x] + s.subrange(kx, ky) + seq![y] + s.skip(ky));
    assert(insert_desc(s2, x) =~= s.take(kx) + seq![x] + s.subrange(kx, ky) + seq![y] + s.skip(ky));
}

/// `es` with its `i`-th and next edits swapped.
pub open spec fn swap_next(es: Seq<EditV>, i: int) -> Seq<EditV> {
    es.update(i, es[i + 1]).update(i + 1, es[i])
}

/// Swapping two neighbouring edits with different starts leaves their order of
/// application unchanged.
proof fn lemma_sort_swap(es: Seq<EditV>, i: int)
    requires
        0 <= i,
        i + 1 < es.len(),
        es[i].0 != es[i + 1].0,
    ensures
        sort_desc(swap_next(es, i)) == sort_desc(es),
    decreases es.len(),
{
    let w = swap_next(es, i);
    if es.len() == i + 2 {
        let p = es.take(i);
        assert(es.drop_last() =~= p.push(es[i]));
        assert(w.drop_last() =~= p.push(es[i + 1]));
        assert(es.drop_last().drop_last() =~= p);
        assert(w.drop_last().drop_last() =~= p);
        assert(sort_desc(es.drop_last()) == insert_desc(sort_desc(p), es[i]));
        assert(sort_desc(w.drop_last()) == insert_desc(sort_desc(p), es[i + 1]));
        if es[i].0 > es[i + 1].0 {
            lemma_insert_commute_gt(sort_desc(p), es[i], es[i + 1]);
        } else {
            lemma_insert_commute_gt(sort_desc(p), es[i + 1], es[i]);
        }
    } else {
        lemma_sort_swap(es.drop_last(), i);
        assert(w.drop_last() =~= swap_next(es.drop_last(), i));
        assert(w.last() == es.last());
    }
}

/// Fills do not depend on the order they are given in, where their starts differ:
/// swapping two neighbouring edits that start at different bytes gives the same buffer
/// (or the same refusal).
pub proof fn lemma_edit_order(text: Seq<char>, es: Seq<EditV>, i: int)
    requires
        0 <= i,
        i + 1 < es.len(),
        es[i].0 != es[i + 1].0,
    ensures
        spec_apply_edits(text, swap_next(es, i)) == spec_apply_edits(text, es),
{
    lemma_sort_swap(es, i);
}

/// Edits in increasing order of start, each ending at or before the next one starts,
/// each within `s` and with both ends on character boundaries of `s`.
pub open spec fn edits_apart(s: Seq<char>, es: Seq<EditV>) -> bool {
    &&& forall|k: int| 0 <= k < es.len() ==> {
        &&& (#[trigger] es[k]).0 <= es[k].1 <= byte_len(s)
        &&& is_boundary(s, es[k].0 as int)
        &&& is_boundary(s, es[k].1 as int)
    }
    &&& forall|i: int, j: int| 0 <= i < j < es.len() ==> (#[trigger] es[i]).1 <= (#[trigger] es[j]).0 && es[i].0 < es[j].0
}

/// The buffer `s` with the edits `es` (in increasing order) spliced in: the text before
/// the last edit with the others spliced in, the last edit's text, then the text after
/// its end. Written out, `s[..s1] + t1 + s[e1..s2] + t2 + ... + tk + s[ek..]`.
pub open spec fn spliced(s: Seq<char>, es: Seq<EditV>) -> Seq<char>
    decreases es.len(),
{
    if es.len() == 0 {
        s
    } else {
        let e = es.last();
        spliced(s.take(chars_before(s, e.0 as int) as int), es.drop_last()) + e.2 + s.skip(chars_before(s, e.1 as int) as int)
    }
}

/// Applying `e` and then `r` is applying `e` first of `seq![e] + r`.
proof fn lemma_apply_prepend(s: Seq<char>, e: EditV, r: Seq<EditV>)
    ensures
        apply_all(s, seq![e] + r) == match apply_one(s, e) {
            Some(t) => apply_all(t, r),
            None => None,
        },
    decreases r.len(),
{
    let x = seq![e] + r;
    if r.len() == 0 {
        assert(x.drop_last() =~= Seq::<EditV>::empty());
        assert(apply_all(s, x.drop_last()) == Some(s));
        assert(x.last() == e);
    } else {
        assert(x.drop_last() =~= seq![e] + r.drop_last());
        assert(x.last() == r.last());
        lemma_apply_prepend(s, e, r.drop_last());
        match apply_one(s, e) {
            Some(t) => {
                assert(apply_all(t, r) == match apply_all(t, r.drop_last()) {
                    Some(w) => apply_one(w, r.last()),
                    None => None,
                });
            },
            None => {},
        }
    }
}

/// Edits with increasing starts are applied in reverse order.
proof fn lemma_sort_increasing(es: Seq<EditV>)
    requires
        forall|i: int, j: int| 0 <= i < j < es.len() ==> (#[trigger] es[i]).0 < (#[trigger] es[j]).0,
    ensures
        sort_desc(es) == es.reverse(),
    decreases es.len(),
{
    if es.len() > 0 {
        let d = es.drop_last();
        assert forall|i: int, j: int| 0 <= i < j < d.len() implies (#[trigger] d[i]).0 < (#[trigger] d[j]).0 by {
            assert(d[i] == es[i] && d[j] == es[j]);
        }
        lemma_sort_increasing(d);
        let r = d.reverse();
        if r.len() > 0 {
            assert(r[0] == es[es.len() - 2]);
        }
        lemma_lead_ge(r, es.last().0, 0);
        assert(insert_desc(r, es.last()) =~= es.reverse());
    }
}

/// Applying apart edits, in reverse order, to `p + q` where they all lie within `p`,
/// splices them into `p` and leaves `q` as it is.
proof fn lemma_apply_apart(p: Seq<char>, q: Seq<char>, es: Seq<EditV>)
    requires
        edits_apart(p, es),
    ensures
        apply_all(p + q, es.reverse()) == Some(spliced(p, es) + q),
    decreases es.len(),
{
    if es.len() == 0 {
        assert(es.reverse() =~= Seq::<EditV>::empty());
    } else {
        let n = es.len() - 1;
        let e = es[n];
        let d = es.drop_last();
        let y = p + q;
        assert(es.reverse() =~= seq![e] + d.reverse());
        lemma_apply_prepend(y, e, d.reverse());
        assert(y.take(p.len() as int) =~= p);
        assert(es[n] == e);
        lemma_chars_before_prefix(y, p.len() as int, e.0 as int);
        lemma_chars_before_prefix(y, p.len() as int, e.1 as int);
        let c0 = chars_before(p, e.0 as int) as int;
        let c1 = chars_before(p, e.1 as int) as int;
        crate::text::lemma_chars_before_facts(p, e.0 as int);
        crate::text::lemma_chars_before_facts(p, e.1 as int);
        lemma_byte_index_mono(y, p.len() as int, y.len() as int);
        assert(byte_index(y, p.len() as int) == byte_len(p)) by {
            assert(y.take(p.len() as int) =~= p.take(p.len() as int));
            lemma_byte_index_prefix(y, p, p.len() as int);
        }
        let rest = e.2 + p.skip(c1) + q;
        assert(apply_one(y, e) == Some(p.take(c0) + rest)) by {
            assert(y.take(c0) =~= p.take(c0));
            assert(y.skip(c1) =~= p.skip(c1) + q);
        }
        let pp = p.take(c0);
        assert(byte_len(pp) == e.0) by {
            assert(pp.take(c0) =~= p.take(c0));
            lemma_byte_index_prefix(pp, p, c0);
        }
        assert forall|k: int| 0 <= k < d.len() implies {
            &&& (#[trigger] d[k]).0 <= d[k].1 <= byte_len(pp)
            &&& is_boundary(pp, d[k].0 as int)
            &&& is_boundary(pp, d[k].1 as int)
        } by {
            assert(d[k] == es[k]);
            assert(es[k].1 <= es[n].0);
            lemma_chars_before_prefix(p, c0, d[k].0 as int);
            lemma_chars_before_prefix(p, c0, d[k].1 as int);
        }
        assert forall|i: int, j: int| 0 <= i < j < d.len() implies (#[trigger] d[i]).1 <= (#[trigger] d[j]).0 && d[i].0 < d[j].0 by {
            assert(d[i] == es[i] && d[j] == es[j]);
        }
        lemma_apply_apart(pp, rest, d);
        assert(spliced(pp, d) + rest =~= spliced(p, es) + q);
    }
}

/// Apart edits (see `edits_apart`) apply in closed form: the buffer with each edit's
/// text spliced in between the untouched stretches, `s[..s1] + t1 + s[e1..s2] + ... +
/// tk + s[ek..]`.
pub proof fn lemma_apply_edits_closed(s: Seq<char>, es: Seq<EditV>)
    requires
        edits_apart(s, es),
    ensures
        spec_apply_edits(s, es) == Some(spliced(s, es)),
{
    lemma_sort_increasing(es);
    lemma_apply_apart(s, Seq::empty(), es);
    assert(s + Seq::<char>::empty() =~= s);
    assert(spliced(s, es) + Seq::<char>::empty() =~= spliced(s, es));
}

/// A prefix of edits that applies leaves a prefix that applies.
proof fn lemma_apply_prefix(s: Seq<char>, es: Seq<EditV>, j: int)
    requires
        0 <= j <= es.len(),
        apply_all(s, es) is Some,
    ensures
        apply_all(s, es.take(j)) is Some,
    decreases es.len(),
{
    if j < es.len() {
        assert(es.drop_last().take(j) =~= es.take(j));
        lemma_apply_prefix(s, es.drop_last(), j);
    } else {
        assert(es.take(j) =~= es);
    }
}

/// The positions of `edits` in latest-first order.
fn sorted_order(edits: &[TextEdit]) -> (order: Vec<usize>)
    ensures
        order@.len() == edits@.len(),
        forall|k: int| 0 <= k < order@.len() ==> (#[trigger] order@[k]) < edits@.len(),
        order@.map_values(|i: usize| edit_view(edits@[i as int])) == sort_desc(edits_view(edits@)),
{
    let ghost ev = edits_view(edits@);
    let mut order: Vec<usize> = Vec::new();
    let mut i: usize = 0;
    while i < edits.len()
        invariant
            i <= edits@.len(),
            ev == edits_view(edits@),
            order@.len() == i,
            forall|k: int| 0 <= k < order@.len() ==> (#[trigger] order@[k]) < edits@.len(),
            order@.map_values(|x: usize| edit_view(edits@[x as int])) == sort_desc(ev.take(i as int)),
        decreases edits@.len() - i,
    {
        let ghost sv = order@.map_values(|x: usize| edit_view(edits@[x as int]));
        let start = edits[i].span.start.offset;
        let mut p: usize = 0;
        while p < order.len() && edits[order[p]].span.start.offset >= start
            invariant
                p <= order@.len(),
                forall|k: int| 0 <= k < order@.len() ==> (#[trigger] order@[k]) < edits@.len(),
                sv == order@.map_values(|x: usize| edit_view(edits@[x as int])),
                forall|j: int| 0 <= j < p ==> (#[trigger] sv[j]).0 >= start,
            decreases order@.len() - p,
        {
            assert(sv[p as int] == edit_view(edits@[order@[p as int] as int]));
            p = p + 1;
        }
        proof {
            if p < order@.len() {
                assert(sv[p as int] == edit_view(edits@[order@[p as int] as int]));
            }
            lemma_lead_ge(sv, start, p as int);
            assert(ev.take(i + 1).drop_last() =~= ev.take(i as int));
            assert(ev.take(i + 1).last() == edit_view(edits@[i as int]));
        }
        let ghost old_order = order@;
        order.insert(p, i);
        proof {
            let nv = order@.map_values(|x: usize| edit_view(edits@[x as int]));
            assert(nv =~= sv.take(p as int) + seq![edit_view(edits@[i as int])] + sv.skip(p as int));
        }
        i = i + 1;
    }
    proof {
        assert(ev.take(ev.len() as int) =~= ev);
    }
    order
}

/// `s[..a] + t + s[b..]`.
fn splice(s: &Vec<char>, a: usize, t: &Vec<char>, b: usize) -> (r: Vec<char>)
    requires
        a <= s@.len(),
        b <= s@.len(),
    ensures
        r@ == s@.take(a as int) + t@ + s@.skip(b as int),
{
    let mut r: Vec<char> = Vec::new();
    let mut i: usize = 0;
    while i < a
        invariant
            i <= a <= s@.len(),
            r@ == s@.take(i as int),
        decreases a - i,
    {
        r.push(s[i]);
        i = i + 1;
        assert(r@ =~= s@.take(i as int));
    }
    let mut j: usize = 0;
    while j < t.len()
        invariant
            j <= t@.len(),
            a <= s@.len(),
            r@ == s@.take(a as int) + t@.take(j as int),
        decreases t@.len() - j,
    {
        r.push(t[j]);
        j = j + 1;
        assert(r@ =~= s@.take(a as int) + t@.take(j as int));
    }
    let mut k: usize = b;
    while k < s.len()
        invariant
            b <= k <= s@.len(),
            a <= s@.len(),
            r@ == s@.take(a as int) + t@ + s@.subrange(b as int, k as int),
        decreases s@.len() - k,
    {
        r.push(s[k]);
        k = k + 1;
        assert(r@ =~= s@.take(a as int) + t@ + s@.subrange(b as int, k as int));
    }
    assert(t@.take(t@.len() as int) =~= t@);
    assert(s@.subrange(b as int, s@.len() as int) =~= s@.skip(b as int));
    r
}

/// Applies text edits (insertions, replacements) to `text`, latest start first, so that
/// no edit shifts the offsets of those still to come. An edit whose range is out of
/// bounds or reversed is skipped.
pub fn apply_edits(text: &str, edits: &[TextEdit]) -> (r: String)
    requires
        spec_apply_edits(text@, edits_view(edits@)) is Some,
    ensures
        spec_apply_edits(text@, edits_view(edits@)) == Some(r@),
{
    let ghost sorted = sort_desc(edits_view(edits@));
    let order = sorted_order(edits);
    let mut cur = chars_of(text);
    let mut j: usize = 0;
    while j < order.len()
        invariant
            j <= order@.len(),
            order@.len() == edits@.len(),
            forall|k: int| 0 <= k < order@.len() ==> (#[trigger] order@[k]) < edits@.len(),
            order@.map_values(|i: usize| edit_view(edits@[i as int])) == sorted,
            apply_all(text@, sorted) is Some,
            apply_all(text@, sorted.take(j as int)) == Some(cur@),
        decreases order@.len() - j,
    {
        let e = &edits[order[j]];
        let ghost ev = sorted[j as int];
        proof {
            assert(ev == edit_view(edits@[order@[j as int] as int]));
            assert(sorted.take(j + 1).drop_last() =~= sorted.take(j as int));
            assert(sorted.take(j + 1).last() == ev);
            lemma_apply_prefix(text@, sorted, j + 1);
        }
        let start = e.span.start.offset;
        let end = e.span.end.offset;
        let (ks, bs) = locate(&cur, start);
        let (ke, be) = locate(&cur, end);
        proof {
            lemma_byte_index_mono(cur@, ks as int, cur@.len() as int);
            lemma_byte_index_mono(cur@, ke as int, cur@.len() as int);
        }
        if bs >= start as u64 && be >= end as u64 && start <= end {
            let t = chars_of(e.new_text.as_str());
            cur = splice(&cur, ks, &t, ke);
        }
        j = j + 1;
    }
    proof {
        assert(sorted.take(order@.len() as int) =~= sorted);
    }
    string_from_chars(&cur)
}

/// Once a prefix of the edits cannot be applied, neither can all of them.
proof fn lemma_apply_none_extends(s: Seq<char>, es: Seq<EditV>, j: int)
    requires
        0 <= j <= es.len(),
        apply_all(s, es.take(j)) is None,
    ensures
        apply_all(s, es) is None,
    decreases es.len(),
{
    if j < es.len() {
        assert(es.drop_last().take(j) =~= es.take(j));
        lemma_apply_none_extends(s, es.drop_last(), j);
    } else {
        assert(es.take(j) =~= es);
    }
}

/// Applies the edits as `apply_edits` does, or returns `None` when an edit within the
/// buffer has an end that is not a character boundary (where `apply_edits` cannot be
/// used).
pub fn try_apply_edits(text: &str, edits: &[TextEdit]) -> (r: Option<String>)
    ensures
        opt_view(r) == spec_apply_edits(text@, edits_view(edits@)),
{
    let ghost sorted = sort_desc(edits_view(edits@));
    let order = sorted_order(edits);
    let mut cur = chars_of(text);
    let mut j: usize = 0;
    while j < order.len()
        invariant
            j <= order@.len(),
            order@.len() == edits@.len(),
            forall|k: int| 0 <= k < order@.len() ==> (#[trigger] order@[k]) < edits@.len(),
            order@.map_values(|i: usize| edit_view(edits@[i as int])) == sorted,
            sorted == sort_desc(edits_view(edits@)),
            apply_all(text@, sorted.take(j as int)) == Some(cur@),
        decreases order@.len() - j,
    {
        let e = &edits[order[j]];
        let ghost ev = sorted[j as int];
        proof {
            assert(ev == edit_view(edits@[order@[j as int] as int]));
            assert(sorted.take(j + 1).drop_last() =~= sorted.take(j as int));
            assert(sorted.take(j + 1).last() == ev);
        }
        let start = e.span.start.offset;
        let end = e.span.end.offset;
        let (ks, bs) = locate(&cur, start);
        let (ke, be) = locate(&cur, end);
        proof {
            lemma_byte_index_mono(cur@, ks as int, cur@.len() as int);
            lemma_byte_index_mono(cur@, ke as int, cur@.len() as int);
        }
        if bs >= start as u64 && be >= end as u64 && start <= end {
            if bs != start as u64 || be != end as u64 {
                proof {
                    assert(apply_all(text@, sorted.take(j + 1)) is None);
                    lemma_apply_none_extends(text@, sorted, j + 1);
                }
                return None;
            }
            let t = chars_of(e.new_text.as_str());
            cur = splice(&cur, ks, &t, ke);
        }
        j = j + 1;
    }
    proof {
        assert(sorted.take(order@.len() as int) =~= sorted);
    }
    Some(string_from_chars(&cur))
}

} // verus!
