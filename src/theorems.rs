use vstd::prelude::*;
use crate::ingestor::{
    accept_of, child, first_invalid, ingest_result, ingest_spec, kind_of, conforms, then, walk,
    walk_members, Failure, IngestError, Manifest,
};
use crate::json::Json;
use crate::order::{
    chain_lt, class_of, kind_class, lemma_sort_entries, path_of, root_view, sort_entries, sorted,
    precedes, TrackingView,
};
use crate::path::{segments, under, Filter};

verus! {

/// Every path is let through.
pub open spec fn everything() -> spec_fn(Seq<Seq<char>>) -> bool {
    |p: Seq<Seq<char>>| true
}

/// The manifests of a document before any filter, in document order.
pub open spec fn candidates(doc: Json) -> Result<Seq<(TrackingView, Json)>, Failure> {
    walk(everything(), doc, root_view())
}

pub open spec fn admitted(f: spec_fn(Seq<Seq<char>>) -> bool) -> spec_fn((TrackingView, Json)) -> bool {
    |e: (TrackingView, Json)| f(path_of(e.0))
}

pub open spec fn keep(f: spec_fn(Seq<Seq<char>>) -> bool, r: Result<Seq<(TrackingView, Json)>, Failure>) -> Result<Seq<(TrackingView, Json)>, Failure> {
    match r {
        Ok(s) => Ok(s.filter(admitted(f))),
        Err(e) => Err(e),
    }
}

proof fn lemma_keep_then(
    f: spec_fn(Seq<Seq<char>>) -> bool,
    a: Result<Seq<(TrackingView, Json)>, Failure>,
    b: Result<Seq<(TrackingView, Json)>, Failure>,
)
    ensures
        keep(f, then(a, b)) == then(keep(f, a), keep(f, b)),
{
    if a is Ok && b is Ok {
        Seq::filter_distributes_over_add(a->Ok_0, b->Ok_0, admitted(f));
    }
}

proof fn lemma_filter_one(e: (TrackingView, Json), p: spec_fn((TrackingView, Json)) -> bool)
    ensures
        seq![e].filter(p) == (if p(e) { seq![e] } else { Seq::<(TrackingView, Json)>::empty() }),
{
    reveal(Seq::filter);
    assert(seq![e].drop_last() =~= Seq::<(TrackingView, Json)>::empty());
    assert(Seq::<(TrackingView, Json)>::empty().filter(p) =~= Seq::<(TrackingView, Json)>::empty());
    if p(e) {
        assert(Seq::<(TrackingView, Json)>::empty().push(e) =~= seq![e]);
    }
}

proof fn lemma_walk_filter(f: spec_fn(Seq<Seq<char>>) -> bool, j: Json, t: TrackingView)
    ensures
        walk(f, j, t) == keep(f, walk(everything(), j, t)),
    decreases j, 0nat,
{
    if conforms(j) {
        if let Some(k) = kind_of(j) {
            let tk = TrackingView { tracks: t.tracks, order: Some(kind_class(k)), kind: Some(k) };
            lemma_filter_one((tk, j), admitted(f));
        }
    } else {
        if let Json::Object(ms) = j {
            if first_invalid(ms@) is None {
                lemma_walk_members_filter(f, ms@, t, 0);
            }
        }
    }
}

proof fn lemma_walk_members_filter(f: spec_fn(Seq<Seq<char>>) -> bool, ms: Seq<(String, Json)>, t: TrackingView, i: nat)
    ensures
        walk_members(f, ms, t, i) == keep(f, walk_members(everything(), ms, t, i)),
    decreases ms, ms.len() - i,
{
    if i < ms.len() {
        lemma_walk_filter(f, ms[i as int].1, child(t, ms, i as int));
        lemma_walk_members_filter(f, ms, t, i + 1);
        lemma_keep_then(f, walk(everything(), ms[i as int].1, child(t, ms, i as int)), walk_members(everything(), ms, t, i + 1));
    } else {
        assert(Seq::<(TrackingView, Json)>::empty().filter(admitted(f)) =~= Seq::<(TrackingView, Json)>::empty()) by {
            reveal(Seq::filter);
        }
    }
}

/// A manifest is in the output exactly when it is a manifest of the document
/// and the filter lets its path through; the filter never changes whether the
/// document is accepted.
pub proof fn law_filter(flt: Filter, doc: Json)
    ensures
        ingest_spec(flt, doc) is Ok <==> candidates(doc) is Ok,
        ingest_spec(flt, doc) is Ok ==> forall|x: (TrackingView, Json)|
            #[trigger] ingest_spec(flt, doc)->Ok_0.contains(x)
                <==> (candidates(doc)->Ok_0.contains(x) && flt.accepts(path_of(x.0))),
{
    let f = accept_of(flt);
    lemma_walk_filter(f, doc, root_view());
    if let Ok(all) = candidates(doc) {
        let es = all.filter(admitted(f));
        lemma_sort_entries(es);
        assert forall|x: (TrackingView, Json)| #[trigger] ingest_spec(flt, doc)->Ok_0.contains(x)
            <==> (all.contains(x) && flt.accepts(path_of(x.0))) by {
            if es.contains(x) {
                all.lemma_filter_contains_rev(admitted(f), x);
                let k = choose|k: int| 0 <= k < es.len() && es[k] == x;
                all.lemma_filter_pred(admitted(f), k);
            }
            if all.contains(x) && flt.accepts(path_of(x.0)) {
                let k = choose|k: int| 0 <= k < all.len() && all[k] == x;
                all.lemma_filter_contains(admitted(f), k);
            }
        }
    }
}

/// Filtering on the path of a manifest with nothing excluded yields that
/// manifest, and nothing that lies outside its path; where no object of the
/// document repeats a key, it yields that manifest alone.
pub proof fn law_round_trip(flt: Filter, doc: Json, e: (TrackingView, Json))
    requires
        candidates(doc) is Ok,
        candidates(doc)->Ok_0.contains(e),
        flt.only@.len() == 1,
        segments(flt.only@[0]@) == path_of(e.0),
        flt.except@.len() == 0,
    ensures
        ingest_spec(flt, doc) is Ok,
        ingest_spec(flt, doc)->Ok_0.contains(e),
        forall|i: int| 0 <= i < ingest_spec(flt, doc)->Ok_0.len()
            ==> under(path_of(#[trigger] ingest_spec(flt, doc)->Ok_0[i].0), path_of(e.0)),
        keys_unique(doc) ==> ingest_spec(flt, doc)->Ok_0 == seq![e],
{
    law_filter(flt, doc);
    let only = crate::path::path_list(flt.only@);
    assert(only[0] == path_of(e.0));
    assert(path_of(e.0).subrange(0, path_of(e.0).len() as int) =~= path_of(e.0));
    assert(under(path_of(e.0), only[0]));
    assert(flt.accepts(path_of(e.0)));
    let es = ingest_spec(flt, doc)->Ok_0;
    assert forall|i: int| 0 <= i < es.len() implies under(path_of(#[trigger] es[i].0), path_of(e.0)) by {
        assert(es.contains(es[i]));
        assert(flt.accepts(path_of(es[i].0)));
        let k = choose|k: int| 0 <= k < only.len() && under(path_of(es[i].0), #[trigger] only[k]);
        assert(k == 0);
    }
    if keys_unique(doc) {
        let all = candidates(doc)->Ok_0;
        lemma_walk_paths(everything(), doc, root_view());
        let ei = choose|a: int| 0 <= a < all.len() && all[a] == e;
        assert forall|i: int| 0 <= i < es.len() implies es[i] == e by {
            assert(es.contains(es[i]));
            assert(all.contains(es[i]));
            let a = choose|a: int| 0 <= a < all.len() && all[a] == es[i];
            assert(under(path_of(all[a].0), path_of(all[ei].0)));
        }
        let f = accept_of(flt);
        let w = walk(f, doc, root_view())->Ok_0;
        lemma_walk_distinct(f, doc);
        lemma_sort_entries(w);
        assert(es.contains(e));
        if es.len() > 1 {
            assert(es[0] == e && es[1] == e);
        }
        assert(es =~= seq![e]);
    }
}

/// Of two manifests of different installation classes, the one of the lower
/// class comes first, wherever each stood in the document.
pub proof fn law_priority(flt: Filter, doc: Json, i: int, j: int)
    requires
        ingest_spec(flt, doc) is Ok,
        0 <= i < ingest_spec(flt, doc)->Ok_0.len(),
        0 <= j < ingest_spec(flt, doc)->Ok_0.len(),
        class_of(ingest_spec(flt, doc)->Ok_0[i].0) != class_of(ingest_spec(flt, doc)->Ok_0[j].0),
    ensures
        (i < j) == (class_of(ingest_spec(flt, doc)->Ok_0[i].0) < class_of(ingest_spec(flt, doc)->Ok_0[j].0)),
{
    let f = accept_of(flt);
    let es = walk(f, doc, root_view())->Ok_0;
    lemma_sort_entries(es);
    let out = sort_entries(es);
    if i < j {
        assert(!precedes(out[j].0, out[i].0));
    } else if j < i {
        assert(!precedes(out[i].0, out[j].0));
    }
}

/// Two manifests of one installation class come out in the order in which
/// the document declares them.
pub proof fn law_tie_break(flt: Filter, doc: Json, i: int, j: int)
    requires
        ingest_spec(flt, doc) is Ok,
        0 <= i < j < ingest_spec(flt, doc)->Ok_0.len(),
        class_of(ingest_spec(flt, doc)->Ok_0[i].0) == class_of(ingest_spec(flt, doc)->Ok_0[j].0),
    ensures
        chain_lt(ingest_spec(flt, doc)->Ok_0[i].0.tracks, ingest_spec(flt, doc)->Ok_0[j].0.tracks),
        exists|a: int, b: int| 0 <= a < b < walk(accept_of(flt), doc, root_view())->Ok_0.len()
            && walk(accept_of(flt), doc, root_view())->Ok_0[a] == ingest_spec(flt, doc)->Ok_0[i]
            && walk(accept_of(flt), doc, root_view())->Ok_0[b] == ingest_spec(flt, doc)->Ok_0[j],
{
    let f = accept_of(flt);
    let w = walk(f, doc, root_view())->Ok_0;
    lemma_walk_shape(f, doc, root_view());
    lemma_walk_distinct(f, doc);
    lemma_sort_entries(w);
    let out = sort_entries(w);
    assert(out.contains(out[i]) && out.contains(out[j]));
    let a = choose|a: int| 0 <= a < w.len() && w[a] == out[i];
    let b = choose|b: int| 0 <= b < w.len() && w[b] == out[j];
    assert(out[i] != out[j]);
    assert(!precedes(out[j].0, out[i].0));
    if b < a {
        assert(chain_lt(w[b].0.tracks, w[a].0.tracks));
    }
    assert(a < b);
    assert(chain_lt(w[a].0.tracks, w[b].0.tracks));
}

/// Two ingestions of one document through one filter return the same
/// manifests in the same order, or the same failure.
pub proof fn law_deterministic(
    flt: Filter,
    doc: Json,
    r1: Result<Vec<Manifest>, IngestError>,
    r2: Result<Vec<Manifest>, IngestError>,
)
    requires
        ingest_result(r1, ingest_spec(flt, doc)),
        ingest_result(r2, ingest_spec(flt, doc)),
    ensures
        r1 is Ok <==> r2 is Ok,
        r1 is Ok ==> r1->Ok_0@.len() == r2->Ok_0@.len(),
        r1 is Ok ==> forall|i: int| 0 <= i < r1->Ok_0@.len() ==>
            segments((#[trigger] r1->Ok_0@[i]).path@) == segments(r2->Ok_0@[i].path@)
                && r1->Ok_0@[i].value == r2->Ok_0@[i].value,
        r1 is Err ==> r1->Err_0@ == r2->Err_0@,
{
    if r1 is Ok {
        let es = ingest_spec(flt, doc)->Ok_0;
        assert forall|i: int| 0 <= i < r1->Ok_0@.len() implies
            segments((#[trigger] r1->Ok_0@[i]).path@) == segments(r2->Ok_0@[i].path@)
                && r1->Ok_0@[i].value == r2->Ok_0@[i].value by {
            assert(crate::ingestor::manifest_of(r1->Ok_0@[i], es[i]));
            assert(crate::ingestor::manifest_of(r2->Ok_0@[i], es[i]));
        }
    }
}

/// `a` lies strictly inside `b`'s chain: a proper ancestor of the node `b` leads to.
pub open spec fn strict_prefix(a: Seq<crate::order::TrackView>, b: Seq<crate::order::TrackView>) -> bool {
    a.len() < b.len() && b.subrange(0, a.len() as int) == a
}

pub open spec fn extends(a: Seq<crate::order::TrackView>, p: Seq<crate::order::TrackView>) -> bool {
    p.len() <= a.len() && a.subrange(0, p.len() as int) == p
}

/// No entry of `s` lies below another.
pub open spec fn leafy(s: Seq<(TrackingView, Json)>) -> bool {
    forall|p: int, q: int| 0 <= p < s.len() && 0 <= q < s.len()
        ==> !strict_prefix(#[trigger] s[p].0.tracks, #[trigger] s[q].0.tracks)
}

/// Entries that agree up to level `n` and differ there are ordered by their steps at `n`.
proof fn lemma_chain_lt_at(a: Seq<crate::order::TrackView>, b: Seq<crate::order::TrackView>, n: int)
    requires
        0 <= n < a.len(),
        n < b.len(),
        a.subrange(0, n) == b.subrange(0, n),
        crate::order::track_lt(a[n], b[n]),
    ensures
        chain_lt(a, b),
    decreases n,
{
    if n > 0 {
        assert(a[0] == a.subrange(0, n)[0]);
        assert(b[0] == b.subrange(0, n)[0]);
        assert(a.drop_first().subrange(0, n - 1) =~= a.subrange(0, n).drop_first());
        assert(b.drop_first().subrange(0, n - 1) =~= b.subrange(0, n).drop_first());
        lemma_chain_lt_at(a.drop_first(), b.drop_first(), n - 1);
    }
}

/// Entries come out in document order: each chain before the next.
pub open spec fn in_document_order(s: Seq<(TrackingView, Json)>) -> bool {
    forall|p: int, q: int| 0 <= p < q < s.len() ==> chain_lt(#[trigger] s[p].0.tracks, #[trigger] s[q].0.tracks)
}

proof fn lemma_walk_shape(f: spec_fn(Seq<Seq<char>>) -> bool, j: Json, t: TrackingView)
    ensures
        walk(f, j, t) is Ok ==> {
            let r = walk(f, j, t)->Ok_0;
            &&& forall|p: int| 0 <= p < r.len() ==> extends(#[trigger] r[p].0.tracks, t.tracks)
            &&& leafy(r)
            &&& in_document_order(r)
        },
    decreases j, 0nat,
{
    if walk(f, j, t) is Ok {
        let r = walk(f, j, t)->Ok_0;
        if conforms(j) {
            assert forall|p: int| 0 <= p < r.len() implies extends(#[trigger] r[p].0.tracks, t.tracks) by {
                assert(r[p].0.tracks.subrange(0, t.tracks.len() as int) =~= t.tracks);
            }
        } else {
            if let Json::Object(ms) = j {
                lemma_members_shape(f, ms@, t, 0);
            }
        }
    }
}

proof fn lemma_members_shape(f: spec_fn(Seq<Seq<char>>) -> bool, ms: Seq<(String, Json)>, t: TrackingView, i: nat)
    ensures
        walk_members(f, ms, t, i) is Ok ==> {
            let r = walk_members(f, ms, t, i)->Ok_0;
            &&& forall|p: int| 0 <= p < r.len() ==> extends(#[trigger] r[p].0.tracks, t.tracks)
                && r[p].0.tracks.len() > t.tracks.len()
                && r[p].0.tracks[t.tracks.len() as int].order >= i
                && r[p].0.tracks[t.tracks.len() as int].depth == t.tracks.len() + 1
            &&& leafy(r)
            &&& in_document_order(r)
        },
    decreases ms, ms.len() - i,
{
    if i < ms.len() && walk_members(f, ms, t, i) is Ok {
        let c = child(t, ms, i as int);
        lemma_walk_shape(f, ms[i as int].1, c);
        lemma_members_shape(f, ms, t, i + 1);
        let x = walk(f, ms[i as int].1, c)->Ok_0;
        let y = walk_members(f, ms, t, i + 1)->Ok_0;
        let r = x + y;
        let n: int = t.tracks.len() as int;
        assert forall|p: int| 0 <= p < r.len() implies extends(#[trigger] r[p].0.tracks, t.tracks)
            && r[p].0.tracks.len() > n && r[p].0.tracks[n].order >= i
            && r[p].0.tracks[n].depth == n + 1 by {
            if p < x.len() {
                let a = r[p].0.tracks;
                assert(r[p] == x[p]);
                assert(a.subrange(0, n + 1) == c.tracks);
                assert(a.subrange(0, n) =~= a.subrange(0, n + 1).subrange(0, n));
                assert(c.tracks.subrange(0, n) =~= t.tracks);
                assert(a[n] == a.subrange(0, n + 1)[n]);
            } else {
                assert(r[p] == y[p - x.len()]);
            }
        }
        assert forall|p: int, q: int| 0 <= p < r.len() && 0 <= q < r.len()
            implies !strict_prefix(#[trigger] r[p].0.tracks, #[trigger] r[q].0.tracks) by {
            if p < x.len() && q < x.len() {
                assert(r[p] == x[p] && r[q] == x[q]);
            } else if p >= x.len() && q >= x.len() {
                assert(r[p] == y[p - x.len()] && r[q] == y[q - x.len()]);
            } else {
                let a = r[p].0.tracks;
                let b = r[q].0.tracks;
                if p < x.len() {
                    assert(r[p] == x[p]);
                    assert(a.subrange(0, n + 1) == c.tracks);
                    assert(a[n] == a.subrange(0, n + 1)[n]);
                    assert(r[q] == y[q - x.len()]);
                } else {
                    assert(r[q] == x[q]);
                    assert(b.subrange(0, n + 1) == c.tracks);
                    assert(b[n] == b.subrange(0, n + 1)[n]);
                    assert(r[p] == y[p - x.len()]);
                }
                if strict_prefix(a, b) {
                    assert(b[n] == b.subrange(0, a.len() as int)[n]);
                }
            }
        }
        assert forall|p: int, q: int| 0 <= p < q < r.len()
            implies chain_lt(#[trigger] r[p].0.tracks, #[trigger] r[q].0.tracks) by {
            if q < x.len() {
                assert(r[p] == x[p] && r[q] == x[q]);
            } else if p >= x.len() {
                assert(r[p] == y[p - x.len()] && r[q] == y[q - x.len()]);
            } else {
                let a = r[p].0.tracks;
                let b = r[q].0.tracks;
                assert(r[p] == x[p]);
                assert(a.subrange(0, n + 1) == c.tracks);
                assert(a[n] == a.subrange(0, n + 1)[n]);
                assert(r[q] == y[q - x.len()]);
                assert(extends(b, t.tracks));
                assert(extends(a, t.tracks)) by {
                    assert(a.subrange(0, n) =~= a.subrange(0, n + 1).subrange(0, n));
                    assert(c.tracks.subrange(0, n) =~= t.tracks);
                }
                lemma_chain_lt_at(a, b, n);
            }
        }
    }
}

/// A manifest is a leaf: nothing beneath a manifest in the document comes out
/// as a manifest of its own.
pub proof fn law_leaf(flt: Filter, doc: Json)
    ensures
        ingest_spec(flt, doc) is Ok ==> leafy(ingest_spec(flt, doc)->Ok_0),
{
    let f = accept_of(flt);
    lemma_walk_shape(f, doc, root_view());
    if let Ok(w) = walk(f, doc, root_view()) {
        lemma_sort_entries(w);
        let es = sort_entries(w);
        assert forall|p: int, q: int| 0 <= p < es.len() && 0 <= q < es.len()
            implies !strict_prefix(#[trigger] es[p].0.tracks, #[trigger] es[q].0.tracks) by {
            assert(es.contains(es[p]) && es.contains(es[q]));
            let a = choose|a: int| 0 <= a < w.len() && w[a] == es[p];
            let b = choose|b: int| 0 <= b < w.len() && w[b] == es[q];
        }
    }
}

/// No object anywhere in the document repeats a key.
pub open spec fn keys_unique(j: Json) -> bool
    decreases j, 0nat,
{
    match j {
        Json::Object(ms) => keys_unique_from(ms@, 0),
        _ => true,
    }
}

/// The members of `ms` from `i` on hold no key of an earlier member, and no
/// object beneath them repeats a key.
pub open spec fn keys_unique_from(ms: Seq<(String, Json)>, i: nat) -> bool
    decreases ms, ms.len() - i,
{
    if i >= ms.len() {
        true
    } else {
        (forall|k: int| 0 <= k < i ==> ms[k].0@ != #[trigger] ms[i as int].0@)
            && keys_unique(ms[i as int].1)
            && keys_unique_from(ms, i + 1)
    }
}

/// Where keys are unique, no manifest's path lies under another's.
proof fn lemma_walk_paths(f: spec_fn(Seq<Seq<char>>) -> bool, j: Json, t: TrackingView)
    requires
        keys_unique(j),
    ensures
        walk(f, j, t) is Ok ==> {
            let r = walk(f, j, t)->Ok_0;
            forall|p: int, q: int| 0 <= p < r.len() && 0 <= q < r.len()
                && under(path_of(#[trigger] r[p].0), path_of(#[trigger] r[q].0)) ==> p == q
        },
    decreases j, 0nat,
{
    if walk(f, j, t) is Ok && !conforms(j) {
        if let Json::Object(ms) = j {
            lemma_members_paths(f, ms@, t, 0);
        }
    }
}

proof fn lemma_members_paths(f: spec_fn(Seq<Seq<char>>) -> bool, ms: Seq<(String, Json)>, t: TrackingView, i: nat)
    requires
        keys_unique_from(ms, i),
    ensures
        walk_members(f, ms, t, i) is Ok ==> {
            let r = walk_members(f, ms, t, i)->Ok_0;
            &&& forall|p: int, q: int| 0 <= p < r.len() && 0 <= q < r.len()
                && under(path_of(#[trigger] r[p].0), path_of(#[trigger] r[q].0)) ==> p == q
            &&& forall|p: int| 0 <= p < r.len() ==> path_of(#[trigger] r[p].0).len() > t.tracks.len()
                && exists|k: int| i <= k < ms.len() && path_of(r[p].0)[t.tracks.len() as int] == ms[k].0@
        },
    decreases ms, ms.len() - i,
{
    if i < ms.len() && walk_members(f, ms, t, i) is Ok {
        let c = child(t, ms, i as int);
        lemma_walk_paths(f, ms[i as int].1, c);
        lemma_walk_shape(f, ms[i as int].1, c);
        lemma_members_paths(f, ms, t, i + 1);
        let x = walk(f, ms[i as int].1, c)->Ok_0;
        let y = walk_members(f, ms, t, i + 1)->Ok_0;
        let r = x + y;
        let n: int = t.tracks.len() as int;
        assert forall|p: int| 0 <= p < x.len() implies path_of(#[trigger] x[p].0).len() > n
            && path_of(x[p].0)[n] == ms[i as int].0@ by {
            let a = x[p].0.tracks;
            assert(a.subrange(0, n + 1) == c.tracks);
            assert(a[n] == a.subrange(0, n + 1)[n]);
        }
        assert forall|p: int| 0 <= p < r.len() implies path_of(#[trigger] r[p].0).len() > n
            && exists|k: int| i <= k < ms.len() && path_of(r[p].0)[n] == ms[k].0@ by {
            if p < x.len() {
                assert(r[p] == x[p]);
            } else {
                assert(r[p] == y[p - x.len()]);
                let k = choose|k: int| i + 1 <= k < ms.len() && path_of(y[p - x.len()].0)[n] == ms[k].0@;
            }
        }
        assert forall|p: int, q: int| 0 <= p < r.len() && 0 <= q < r.len()
            && under(path_of(#[trigger] r[p].0), path_of(#[trigger] r[q].0)) implies p == q by {
            if p < x.len() && q < x.len() {
                assert(r[p] == x[p] && r[q] == x[q]);
            } else if p >= x.len() && q >= x.len() {
                assert(r[p] == y[p - x.len()] && r[q] == y[q - x.len()]);
            } else {
                let (u, v) = if p < x.len() { (p, q) } else { (q, p) };
                assert(r[u] == x[u]);
                assert(r[v] == y[v - x.len()]);
                let k = choose|k: int| i + 1 <= k < ms.len() && path_of(y[v - x.len()].0)[n] == ms[k].0@;
                assert(keys_unique_from(ms, k as nat)) by {
                    lemma_keys_unique_from_later(ms, i, k as nat);
                }
                assert(ms[i as int].0@ != ms[k].0@);
                let a = path_of(r[p].0);
                let b = path_of(r[q].0);
                assert(b[n] == a.subrange(0, b.len() as int)[n]);
            }
        }
    }
}

proof fn lemma_keys_unique_from_later(ms: Seq<(String, Json)>, i: nat, k: nat)
    requires
        keys_unique_from(ms, i),
        i <= k,
    ensures
        keys_unique_from(ms, k),
    decreases k - i,
{
    if i < k && i < ms.len() {
        lemma_keys_unique_from_later(ms, i + 1, k);
    }
}

/// A manifest comes out of the walk at most once.
proof fn lemma_walk_distinct(f: spec_fn(Seq<Seq<char>>) -> bool, doc: Json)
    ensures
        walk(f, doc, root_view()) is Ok ==> walk(f, doc, root_view())->Ok_0.no_duplicates(),
{
    lemma_walk_shape(f, doc, root_view());
    if let Ok(w) = walk(f, doc, root_view()) {
        assert forall|p: int, q: int| 0 <= p < w.len() && 0 <= q < w.len() && p != q implies w[p] != w[q] by {
            crate::order::lemma_precedes_order(w[p].0, w[p].0, w[p].0);
            if p < q {
                assert(chain_lt(w[p].0.tracks, w[q].0.tracks));
            } else {
                assert(chain_lt(w[q].0.tracks, w[p].0.tracks));
            }
        }
    }
}

} // verus!
