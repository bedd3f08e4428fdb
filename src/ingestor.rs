use vstd::prelude::*;
use crate::json::{find_member, member, Json};
use crate::order::{
    class_for_kind, entries_view, entry_view, kind_class, path_of, root_view, sort_entries, sort_manifests, Track,
    TrackView, Tracking, TrackingView,
};
use crate::path::{is_valid, segments, valid_segment, Filter};

verus! {

/// Why a document could not be ingested.
#[derive(Clone, Debug, PartialEq)]
pub enum IngestError {
    /// An object key that cannot stand as a path segment.
    Path(String),
    /// A scalar or an array where nested objects were expected.
    NotObject,
    /// A manifest, at the given path, whose kind is missing or malformed.
    Manifest(Vec<String>),
}

/// The failures of ingestion, with keys and paths as character sequences.
pub enum Failure {
    Path(Seq<char>),
    NotObject,
    Manifest(Seq<Seq<char>>),
}

impl View for IngestError {
    type V = Failure;

    open spec fn view(&self) -> Failure {
        match self {
            IngestError::Path(k) => Failure::Path(k@),
            IngestError::NotObject => Failure::NotObject,
            IngestError::Manifest(p) => Failure::Manifest(segments(p@)),
        }
    }
}

/// A Kubernetes object taken from a document, with the path at which it stood.
#[derive(Debug, PartialEq)]
pub struct Manifest {
    pub path: Vec<String>,
    pub value: Json,
}

/// A manifest node: an object with both an `apiVersion` and a `kind` member.
pub open spec fn conforms(j: Json) -> bool {
    match j {
        Json::Object(ms) => member(ms@, "apiVersion"@) is Some && member(ms@, "kind"@) is Some,
        _ => false,
    }
}

/// The kind of a manifest: its `kind` member, when that is a non-empty string.
pub open spec fn kind_of(j: Json) -> Option<Seq<char>> {
    match j {
        Json::Object(ms) => match member(ms@, "kind"@) {
            Some(Json::Str(s)) => if s@.len() > 0 { Some(s@) } else { None },
            _ => None,
        },
        _ => None,
    }
}

/// The first key of `ms` that cannot stand as a path segment.
pub open spec fn first_invalid(ms: Seq<(String, Json)>) -> Option<Seq<char>>
    decreases ms.len(),
{
    if ms.len() == 0 {
        None
    } else if !valid_segment(ms[0].0@) {
        Some(ms[0].0@)
    } else {
        first_invalid(ms.drop_first())
    }
}

/// The chain of the member at `i` of an object reached by `t`.
pub open spec fn child(t: TrackingView, ms: Seq<(String, Json)>, i: int) -> TrackingView {
    TrackingView {
        tracks: t.tracks.push(TrackView { field: ms[i].0@, depth: t.tracks.len() + 1, order: i as nat }),
        order: None,
        kind: None,
    }
}

/// The outcome of one step followed by the next: the first failure wins.
pub open spec fn then(a: Result<Seq<(TrackingView, Json)>, Failure>, b: Result<Seq<(TrackingView, Json)>, Failure>) -> Result<Seq<(TrackingView, Json)>, Failure> {
    match a {
        Err(e) => Err(e),
        Ok(x) => match b {
            Err(e) => Err(e),
            Ok(y) => Ok(x + y),
        },
    }
}

/// The manifests of the node `j` reached by `t` whose paths `f` admits, in document order.
pub open spec fn walk(f: spec_fn(Seq<Seq<char>>) -> bool, j: Json, t: TrackingView) -> Result<Seq<(TrackingView, Json)>, Failure>
    decreases j, 0nat,
{
    if conforms(j) {
        match kind_of(j) {
            None => Err(Failure::Manifest(path_of(t))),
            Some(k) => {
                let tk = TrackingView { tracks: t.tracks, order: Some(kind_class(k)), kind: Some(k) };
                if f(path_of(tk)) {
                    Ok(seq![(tk, j)])
                } else {
                    Ok(Seq::empty())
                }
            },
        }
    } else {
        match j {
            Json::Object(ms) => match first_invalid(ms@) {
                Some(k) => Err(Failure::Path(k)),
                None => walk_members(f, ms@, t, 0),
            },
            _ => Err(Failure::NotObject),
        }
    }
}

/// The manifests under the members of `ms` from `i` on.
pub open spec fn walk_members(f: spec_fn(Seq<Seq<char>>) -> bool, ms: Seq<(String, Json)>, t: TrackingView, i: nat) -> Result<Seq<(TrackingView, Json)>, Failure>
    decreases ms, ms.len() - i,
{
    if i >= ms.len() {
        Ok(Seq::empty())
    } else {
        then(walk(f, ms[i as int].1, child(t, ms, i as int)), walk_members(f, ms, t, i + 1))
    }
}

/// The number of nodes of a document.
pub open spec fn size(j: Json) -> nat
    decreases j, 0nat,
{
    match j {
        Json::Object(ms) => 1 + size_members(ms@, 0),
        _ => 1,
    }
}

pub open spec fn size_members(ms: Seq<(String, Json)>, i: nat) -> nat
    decreases ms, ms.len() - i,
{
    if i >= ms.len() {
        0
    } else {
        size(ms[i as int].1) + size_members(ms, i + 1)
    }
}

/// The nodes still waiting on a stack whose top is its last entry.
pub open spec fn stack_size(s: Seq<(TrackingView, Json)>) -> nat
    decreases s.len(),
{
    if s.len() == 0 {
        0
    } else {
        stack_size(s.drop_last()) + size(s.last().1)
    }
}

/// The manifests of the nodes of a stack, the top first.
pub open spec fn walk_stack(f: spec_fn(Seq<Seq<char>>) -> bool, s: Seq<(TrackingView, Json)>) -> Result<Seq<(TrackingView, Json)>, Failure>
    decreases s.len(),
{
    if s.len() == 0 {
        Ok(Seq::empty())
    } else {
        then(walk(f, s.last().1, s.last().0), walk_stack(f, s.drop_last()))
    }
}

proof fn lemma_then_assoc(
    a: Result<Seq<(TrackingView, Json)>, Failure>,
    b: Result<Seq<(TrackingView, Json)>, Failure>,
    c: Result<Seq<(TrackingView, Json)>, Failure>,
)
    ensures
        then(then(a, b), c) == then(a, then(b, c)),
{
    if a is Ok && b is Ok && c is Ok {
        assert(a->Ok_0 + b->Ok_0 + c->Ok_0 =~= a->Ok_0 + (b->Ok_0 + c->Ok_0));
    }
}

proof fn lemma_then_empty(a: Result<Seq<(TrackingView, Json)>, Failure>)
    ensures
        then(Ok(Seq::empty()), a) == a,
        then(a, Ok(Seq::empty())) == a,
{
    if a is Ok {
        assert(Seq::<(TrackingView, Json)>::empty() + a->Ok_0 =~= a->Ok_0);
        assert(a->Ok_0 + Seq::<(TrackingView, Json)>::empty() =~= a->Ok_0);
    }
}

/// Whether `j` is a manifest node.
pub fn is_manifest(j: &Json) -> (r: bool)
    ensures
        r == conforms(*j),
{
    match j {
        Json::Object(ms) => find_member(ms, "apiVersion").is_some() && find_member(ms, "kind").is_some(),
        _ => false,
    }
}

/// The kind of a manifest node.
pub fn manifest_kind(j: &Json) -> (r: Option<String>)
    ensures
        r matches Some(k) ==> kind_of(*j) == Some(k@),
        r is None ==> kind_of(*j) is None,
{
    match j {
        Json::Object(ms) => match find_member(ms, "kind") {
            Some(Json::Str(s)) => {
                if s.as_str().unicode_len() > 0 {
                    Some(s.clone())
                } else {
                    None
                }
            },
            _ => None,
        },
        _ => None,
    }
}

/// The first key of `ms` that cannot stand as a path segment.
fn find_invalid(ms: &Vec<(String, Json)>) -> (r: Option<String>)
    ensures
        r matches Some(k) ==> first_invalid(ms@) == Some(k@),
        r is None ==> first_invalid(ms@) is None,
{
    let mut i: usize = 0;
    assert(ms@.skip(0) =~= ms@);
    while i < ms.len()
        invariant
            i <= ms@.len(),
            first_invalid(ms@) == first_invalid(ms@.skip(i as int)),
        decreases ms@.len() - i,
    {
        assert(ms@.skip(i as int).drop_first() =~= ms@.skip(i + 1));
        if !is_valid(ms[i].0.as_str()) {
            return Some(ms[i].0.clone());
        }
        i = i + 1;
    }
    None
}

/// The paths that a filter lets through.
pub open spec fn accept_of(f: Filter) -> spec_fn(Seq<Seq<char>>) -> bool {
    |p: Seq<Seq<char>>| f.accepts(p)
}

/// What `ingest` returns for a filter and a document: every manifest under the
/// document that passes the filter, sorted, or the first failure met in
/// document order.
pub open spec fn ingest_spec(f: Filter, doc: Json) -> Result<Seq<(TrackingView, Json)>, Failure> {
    match walk(accept_of(f), doc, root_view()) {
        Ok(es) => Ok(sort_entries(es)),
        Err(e) => Err(e),
    }
}

/// A manifest built from a sorted entry.
pub open spec fn manifest_of(m: Manifest, e: (TrackingView, Json)) -> bool {
    segments(m.path@) == path_of(e.0) && m.value == e.1
}

/// `r` is what `ingest` returns for `spec`.
pub open spec fn ingest_result(r: Result<Vec<Manifest>, IngestError>, spec: Result<Seq<(TrackingView, Json)>, Failure>) -> bool {
    match (r, spec) {
        (Ok(ms), Ok(es)) => ms@.len() == es.len() && forall|i: int| 0 <= i < es.len() ==> manifest_of(#[trigger] ms@[i], es[i]),
        (Err(e), Err(x)) => e@ == x,
        _ => false,
    }
}

/// Extracts the manifests of rendered documents through a path filter.
pub struct Ingestor {
    filter: Filter,
}

impl Ingestor {
    /// The filter that the manifests' paths go through.
    pub closed spec fn filter(&self) -> Filter {
        self.filter
    }

    /// An ingestor that keeps the paths under `only` (all, when it is empty)
    /// and drops those under `except`.
    pub fn new(only: Vec<Vec<String>>, except: Vec<Vec<String>>) -> (r: Self)
        ensures
            r.filter() == (Filter { only, except }),
    {
        let filter = Filter { only, except };
        Self { filter }
    }

    /// Walks `json` for manifests that pass the filter, and sorts them.
    ///
    /// The walk keeps its own stack of pending nodes rather than recursing, so
    /// the depth of a document is bounded by memory alone. A manifest is a leaf
    /// of the walk; the members of any other object are pushed all at once, and
    /// the first of them is visited next.
    pub fn ingest(&self, json: Json) -> (r: Result<Vec<Manifest>, IngestError>)
        ensures
            ingest_result(r, ingest_spec(self.filter(), json)),
    {
        let ghost f = accept_of(self.filter);
        let ghost goal = walk(f, json, root_view());
        let ghost doc = json;
        let mut manifests: Vec<(Tracking, Json)> = Vec::new();
        let mut stack: Vec<(Tracking, Json)> = Vec::new();
        stack.push((Tracking::root(), json));
        proof {
            let s = entries_view(stack@);
            assert(s.drop_last() =~= Seq::<(TrackingView, Json)>::empty());
            assert(s.last() == (root_view(), json));
            assert(walk_stack(f, s) == then(walk(f, json, root_view()), walk_stack(f, s.drop_last())));
            lemma_then_empty(walk(f, json, root_view()));
            assert(entries_view(manifests@) =~= Seq::<(TrackingView, Json)>::empty());
        }
        while stack.len() > 0
            invariant
                f == accept_of(self.filter),
                goal == walk(f, doc, root_view()),
                doc == json,
                then(Ok(entries_view(manifests@)), walk_stack(f, entries_view(stack@))) == goal,
            decreases stack_size(entries_view(stack@)),
        {
            let ghost before = entries_view(stack@);
            let popped = stack.pop();
            if let Some((tracking, node)) = popped {
                let ghost rest = entries_view(stack@);
                let ghost tv = tracking@;
                let ghost acc = entries_view(manifests@);
                proof {
                    assert(rest =~= before.drop_last());
                    assert(before.last() == (tv, node));
                    assert(walk_stack(f, before) == then(walk(f, node, tv), walk_stack(f, rest)));
                    assert(stack_size(before) == stack_size(rest) + size(node));
                    lemma_then_assoc(Ok(acc), walk(f, node, tv), walk_stack(f, rest));
                }
                if is_manifest(&node) {
                    match manifest_kind(&node) {
                        None => {
                            assert(walk(f, node, tv) == Err::<Seq<(TrackingView, Json)>, Failure>(Failure::Manifest(path_of(tv))));
                            return Err(IngestError::Manifest(tracking.path()));
                        },
                        Some(kind) => {
                            let class = class_for_kind(kind.as_str());
                            let classed = tracking.ordered(class).kinded(kind);
                            let path = classed.path();
                            if self.filter.pass(&path) {
                                manifests.push((classed, node));
                                proof {
                                    assert(entries_view(manifests@) =~= acc + seq![(classed@, node)]);
                                }
                            } else {
                                proof {
                                    lemma_then_empty(walk_stack(f, rest));
                                }
                            }
                        },
                    }
                } else {
                    match node {
                        Json::Object(members) => {
                            match find_invalid(&members) {
                                Some(k) => {
                                    assert(walk(f, Json::Object(members), tv) == Err::<Seq<(TrackingView, Json)>, Failure>(Failure::Path(k@)));
                                    return Err(IngestError::Path(k));
                                },
                                None => {},
                            }
                            let ghost ms = members@;
                            let mut members = members;
                            proof {
                                assert(ms.take(ms.len() as int) =~= ms);
                                assert(size_members(ms, ms.len() as nat) == 0);
                                assert(walk_members(f, ms, tv, ms.len() as nat) == Ok::<Seq<(TrackingView, Json)>, Failure>(Seq::empty()));
                                assert(entries_view(stack@) == rest);
                                assert(walk(f, node, tv) == walk_members(f, ms, tv, 0));
                                assert(size(node) == 1 + size_members(ms, 0));
                                lemma_then_empty(walk_stack(f, rest));
                            }
                            while members.len() > 0
                                invariant
                                    f == accept_of(self.filter),
                                    members@ == ms.take(members@.len() as int),
                                    members@.len() <= ms.len(),
                                    tv == tracking@,
                                    then(walk_members(f, ms, tv, members@.len() as nat), walk_stack(f, rest))
                                        == walk_stack(f, entries_view(stack@)),
                                    stack_size(entries_view(stack@)) == stack_size(rest) + size_members(ms, members@.len() as nat),
                                decreases members@.len(),
                            {
                                let ghost sv = entries_view(stack@);
                                let ghost m = members@.len();
                                let last = members.pop();
                                if let Some((key, value)) = last {
                                    let idx = members.len();
                                    proof {
                                        assert(ms[idx as int] == (key, value));
                                        lemma_then_assoc(
                                            walk(f, value, child(tv, ms, idx as int)),
                                            walk_members(f, ms, tv, m as nat),
                                            walk_stack(f, rest),
                                        );
                                    }
                                    let t = tracking.track(key, idx);
                                    stack.push((t, value));
                                    proof {
                                        assert(entries_view(stack@).drop_last() =~= sv);
                                        assert(entries_view(stack@).last() == (t@, value));
                                        assert(stack_size(entries_view(stack@)) == stack_size(sv) + size(value));
                                        assert(size_members(ms, idx as nat) == size(value) + size_members(ms, m as nat));
                                        assert(members@ =~= ms.take(idx as int));
                                    }
                                }
                            }
                        },
                        _ => {
                            assert(walk(f, node, tv) == Err::<Seq<(TrackingView, Json)>, Failure>(Failure::NotObject));
                            return Err(IngestError::NotObject);
                        },
                    }
                }
            }
        }
        proof {
            lemma_then_empty(Ok(entries_view(manifests@)));
        }
        let sorted = sort_manifests(manifests);
        let ghost es = entries_view(sorted@);
        let total = sorted.len();
        let mut out: Vec<Manifest> = Vec::new();
        let mut rest = sorted;
        let mut i: usize = 0;
        while rest.len() > 0
            invariant
                es.len() == i + rest@.len(),
                es.len() == total,
                out@.len() == i,
                forall|k: int| 0 <= k < i ==> manifest_of(#[trigger] out@[k], es[k]),
                forall|k: int| 0 <= k < rest@.len() ==> entry_view(#[trigger] rest@[k]) == es[i + k],
            decreases rest@.len(),
        {
            let ghost before = rest@;
            let (t, v) = rest.remove(0);
            proof {
                assert(entry_view(before[0]) == es[i as int]);
                assert forall|k: int| 0 <= k < rest@.len() implies entry_view(#[trigger] rest@[k]) == es[i + 1 + k] by {
                    assert(rest@[k] == before[k + 1]);
                }
            }
            out.push(Manifest { path: t.path(), value: v });
            i = i + 1;
        }
        Ok(out)
    }
}

} // verus!
