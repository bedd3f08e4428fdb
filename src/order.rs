use vstd::prelude::*;
use crate::json::{str_eq, Json};

verus! {

/// One step of the way from the document root to a node.
pub struct Track {
    /// The object key at this level.
    pub field: String,
    /// Distance from the root.
    pub depth: usize,
    /// Position of the node among its siblings.
    pub order: usize,
}

/// A step with its key as a character sequence.
pub struct TrackView {
    pub field: Seq<char>,
    pub depth: nat,
    pub order: nat,
}

impl View for Track {
    type V = TrackView;

    open spec fn view(&self) -> TrackView {
        TrackView { field: self.field@, depth: self.depth as nat, order: self.order as nat }
    }
}

/// The chain of steps to a node, with the installation class and kind once
/// the node is known to be a manifest.
pub struct Tracking {
    pub tracks: Vec<Track>,
    pub order: Option<usize>,
    pub kind: Option<String>,
}

/// The steps of a chain, each seen as a view.
pub open spec fn track_views(s: Seq<Track>) -> Seq<TrackView> {
    s.map_values(|t: Track| t@)
}

/// A chain with its keys and kind as character sequences.
pub struct TrackingView {
    pub tracks: Seq<TrackView>,
    pub order: Option<nat>,
    pub kind: Option<Seq<char>>,
}

pub open spec fn opt_nat(o: Option<usize>) -> Option<nat> {
    match o {
        Some(n) => Some(n as nat),
        None => None,
    }
}

pub open spec fn opt_str(o: Option<String>) -> Option<Seq<char>> {
    match o {
        Some(s) => Some(s@),
        None => None,
    }
}

impl View for Tracking {
    type V = TrackingView;

    open spec fn view(&self) -> TrackingView {
        TrackingView {
            tracks: track_views(self.tracks@),
            order: opt_nat(self.order),
            kind: opt_str(self.kind),
        }
    }
}

/// The chain of the document root.
pub open spec fn root_view() -> TrackingView {
    TrackingView { tracks: Seq::empty(), order: None, kind: None }
}

/// The fields of a chain: the path of the node it leads to.
pub open spec fn path_of(t: TrackingView) -> Seq<Seq<char>> {
    t.tracks.map_values(|s: TrackView| s.field)
}

/// The positions of a chain, level by level.
pub open spec fn positions(t: TrackingView) -> Seq<nat> {
    t.tracks.map_values(|s: TrackView| s.order)
}

/// The installation class of a chain; a chain without one counts as the first.
pub open spec fn class_of(t: TrackingView) -> nat {
    match t.order {
        Some(c) => c,
        None => 0,
    }
}

/// Kinds in the order in which they are installed; any other kind comes after all of them.
pub open spec fn install_order() -> Seq<Seq<char>> {
    seq![
        "Namespace"@, "NetworkPolicy"@, "ResourceQuota"@, "LimitRange"@, "PodSecurityPolicy"@,
        "PodDisruptionBudget"@, "ServiceAccount"@, "Secret"@, "SecretList"@, "ConfigMap"@,
        "StorageClass"@, "PersistentVolume"@, "PersistentVolumeClaim"@,
        "CustomResourceDefinition"@, "ClusterRole"@, "ClusterRoleList"@, "ClusterRoleBinding"@,
        "ClusterRoleBindingList"@, "Role"@, "RoleList"@, "RoleBinding"@, "RoleBindingList"@,
        "Service"@, "DaemonSet"@, "Pod"@, "ReplicationController"@, "ReplicaSet"@, "Deployment"@,
        "HorizontalPodAutoscaler"@, "StatefulSet"@, "Job"@, "CronJob"@, "IngressClass"@,
        "Ingress"@, "APIService"@,
    ]
}

/// The first place of `kind` in `kinds`, or the length of `kinds` when it is absent.
pub open spec fn place_in(kinds: Seq<Seq<char>>, kind: Seq<char>) -> nat
    decreases kinds.len(),
{
    if kinds.len() == 0 {
        0
    } else if kinds[0] == kind {
        0
    } else {
        1 + place_in(kinds.drop_first(), kind)
    }
}

/// The installation class of a kind.
pub open spec fn kind_class(kind: Seq<char>) -> nat {
    place_in(install_order(), kind)
}

fn install_order_exec() -> (r: Vec<&'static str>)
    ensures
        r@.map_values(|s: &str| s@) == install_order(),
{
    let r = vec![
        "Namespace", "NetworkPolicy", "ResourceQuota", "LimitRange", "PodSecurityPolicy",
        "PodDisruptionBudget", "ServiceAccount", "Secret", "SecretList", "ConfigMap",
        "StorageClass", "PersistentVolume", "PersistentVolumeClaim",
        "CustomResourceDefinition", "ClusterRole", "ClusterRoleList", "ClusterRoleBinding",
        "ClusterRoleBindingList", "Role", "RoleList", "RoleBinding", "RoleBindingList",
        "Service", "DaemonSet", "Pod", "ReplicationController", "ReplicaSet", "Deployment",
        "HorizontalPodAutoscaler", "StatefulSet", "Job", "CronJob", "IngressClass",
        "Ingress", "APIService",
    ];
    assert(r@.map_values(|s: &str| s@) =~= install_order());
    r
}

/// The installation class of `kind`.
pub fn class_for_kind(kind: &str) -> (r: usize)
    ensures
        r == kind_class(kind@),
{
    let table = install_order_exec();
    let ghost t = install_order();
    let mut i: usize = 0;
    assert(t.skip(0) =~= t);
    while i < table.len()
        invariant
            t == install_order(),
            table@.map_values(|s: &str| s@) == t,
            i <= table@.len(),
            kind_class(kind@) == i + place_in(t.skip(i as int), kind@),
        decreases table@.len() - i,
    {
        assert(t[i as int] == table@[i as int]@);
        assert(t.skip(i as int).drop_first() =~= t.skip(i + 1));
        if str_eq(table[i], kind) {
            return i;
        }
        i = i + 1;
    }
    table.len()
}

/// Shallower steps first, then earlier siblings.
pub open spec fn track_lt(a: TrackView, b: TrackView) -> bool {
    a.depth < b.depth || (a.depth == b.depth && a.order < b.order)
}

/// Lexicographic order of chains by their steps; a chain comes before its extensions.
/// Two steps at one depth and place lead to the same member, so a key never decides.
pub open spec fn chain_lt(a: Seq<TrackView>, b: Seq<TrackView>) -> bool
    decreases a.len(),
{
    if a.len() == 0 {
        b.len() > 0
    } else if b.len() == 0 {
        false
    } else if track_lt(a[0], b[0]) {
        true
    } else if track_lt(b[0], a[0]) {
        false
    } else {
        chain_lt(a.drop_first(), b.drop_first())
    }
}

/// The total order of manifests: installation class first, then place in the document.
pub open spec fn precedes(a: TrackingView, b: TrackingView) -> bool {
    class_of(a) < class_of(b) || (class_of(a) == class_of(b) && chain_lt(a.tracks, b.tracks))
}

/// One manifest waiting to be sorted.
pub open spec fn entry_view(e: (Tracking, Json)) -> (TrackingView, Json) {
    (e.0@, e.1)
}

pub open spec fn entries_view(s: Seq<(Tracking, Json)>) -> Seq<(TrackingView, Json)> {
    s.map_values(|e: (Tracking, Json)| entry_view(e))
}

/// Places `e` after every entry of `s` that it does not precede.
pub open spec fn insert_sorted(s: Seq<(TrackingView, Json)>, e: (TrackingView, Json)) -> Seq<(TrackingView, Json)>
    decreases s.len(),
{
    if s.len() == 0 {
        seq![e]
    } else if precedes(e.0, s[0].0) {
        seq![e] + s
    } else {
        seq![s[0]] + insert_sorted(s.drop_first(), e)
    }
}

/// Stable insertion sort by `precedes`.
pub open spec fn sort_entries(s: Seq<(TrackingView, Json)>) -> Seq<(TrackingView, Json)>
    decreases s.len(),
{
    if s.len() == 0 {
        s
    } else {
        insert_sorted(sort_entries(s.drop_last()), s.last())
    }
}

impl Tracking {
    /// The empty chain of the document root.
    pub fn root() -> (r: Tracking)
        ensures
            r@ == root_view(),
    {
        let r = Tracking { tracks: Vec::new(), order: None, kind: None };
        assert(r@.tracks =~= Seq::<TrackView>::empty());
        r
    }

    /// Distance of the node from the root.
    pub fn depth(&self) -> (r: usize)
        ensures
            r == self@.tracks.len(),
    {
        self.tracks.len()
    }

    fn copy_tracks(&self) -> (r: Vec<Track>)
        ensures
            track_views(r@) == self@.tracks,
    {
        let mut r: Vec<Track> = Vec::new();
        let mut i: usize = 0;
        while i < self.tracks.len()
            invariant
                i <= self.tracks@.len(),
                r@.len() == i,
                track_views(r@) == self@.tracks.take(i as int),
            decreases self.tracks@.len() - i,
        {
            let t = &self.tracks[i];
            let ghost prev = r@;
            r.push(Track { field: t.field.clone(), depth: t.depth, order: t.order });
            assert(self@.tracks[i as int] == self.tracks@[i as int]@);
            assert(track_views(prev) == self@.tracks.take(i as int));
            assert forall|k: int| 0 <= k < i + 1 implies #[trigger] track_views(r@)[k] == self@.tracks.take(i + 1)[k] by {
                if k < i {
                    assert(r@[k] == prev[k]);
                }
            }
            assert(track_views(r@) =~= self@.tracks.take(i + 1));
            i = i + 1;
        }
        assert(self@.tracks.take(i as int) =~= self@.tracks);
        r
    }

    /// The chain extended by the step to the member `field` at place `order`.
    pub fn track(&self, field: String, order: usize) -> (r: Tracking)
        ensures
            r@ == (TrackingView {
                tracks: self@.tracks.push(TrackView { field: field@, depth: self@.tracks.len() + 1, order: order as nat }),
                order: None,
                kind: None,
            }),
    {
        let mut tracks = self.copy_tracks();
        // The slot is taken first, so that the new depth is a length that exists.
        tracks.push(Track { field, depth: 0, order });
        let depth = tracks.len();
        let ghost before = tracks@;
        let mut step = match tracks.pop() {
            Some(t) => t,
            None => Track { field: String::new(), depth: 0, order },
        };
        step.depth = depth;
        tracks.push(step);
        let r = Tracking { tracks, order: None, kind: None };
        assert(r.tracks@ =~= before.drop_last().push(step));
        assert(r@.tracks =~= self@.tracks.push(TrackView { field: field@, depth: self@.tracks.len() + 1, order: order as nat }));
        r
    }

    /// The chain with the installation class of its manifest.
    pub fn ordered(self, order: usize) -> (r: Tracking)
        ensures
            r@ == (TrackingView { order: Some(order as nat), ..self@ }),
    {
        Tracking { tracks: self.tracks, order: Some(order), kind: self.kind }
    }

    /// The chain with the kind of its manifest.
    pub fn kinded(self, kind: String) -> (r: Tracking)
        ensures
            r@ == (TrackingView { kind: Some(kind@), ..self@ }),
    {
        Tracking { tracks: self.tracks, order: self.order, kind: Some(kind) }
    }

    /// The path of the node: the fields of the chain.
    pub fn path(&self) -> (r: Vec<String>)
        ensures
            crate::path::segments(r@) == path_of(self@),
    {
        let mut r: Vec<String> = Vec::new();
        let mut i: usize = 0;
        while i < self.tracks.len()
            invariant
                i <= self.tracks@.len(),
                r@.len() == i,
                crate::path::segments(r@) == path_of(self@).take(i as int),
            decreases self.tracks@.len() - i,
        {
            let ghost prev = r@;
            r.push(self.tracks[i].field.clone());
            assert(self@.tracks[i as int] == self.tracks@[i as int]@);
            assert(path_of(self@)[i as int] == self@.tracks[i as int].field);
            assert forall|k: int| 0 <= k < i + 1 implies #[trigger] crate::path::segments(r@)[k] == path_of(self@).take(i + 1)[k] by {
                if k < i {
                    assert(r@[k] == prev[k]);
                    assert(crate::path::segments(prev)[k] == path_of(self@).take(i as int)[k]);
                }
            }
            assert(crate::path::segments(r@) =~= path_of(self@).take(i + 1));
            i = i + 1;
        }
        assert(path_of(self@).take(i as int) =~= path_of(self@));
        r
    }

    /// Whether `self` sorts strictly before `other`.
    pub fn precedes(&self, other: &Tracking) -> (r: bool)
        ensures
            r == precedes(self@, other@),
    {
        let ca: usize = match self.order { Some(c) => c, None => 0 };
        let cb: usize = match other.order { Some(c) => c, None => 0 };
        if ca != cb {
            return ca < cb;
        }
        let a = &self.tracks;
        let b = &other.tracks;
        let ghost sa = self@.tracks;
        let ghost sb = other@.tracks;
        let mut i: usize = 0;
        assert(sa.skip(0) =~= sa);
        assert(sb.skip(0) =~= sb);
        loop
            invariant
                sa == a@.map_values(|t: Track| t@),
                sb == b@.map_values(|t: Track| t@),
                class_of(self@) == class_of(other@),
                sa == self@.tracks,
                sb == other@.tracks,
                i <= sa.len(),
                i <= sb.len(),
                chain_lt(sa, sb) == chain_lt(sa.skip(i as int), sb.skip(i as int)),
            decreases sa.len() - i,
        {
            assert(sa.skip(i as int).len() == sa.len() - i);
            assert(sb.skip(i as int).len() == sb.len() - i);
            if i == a.len() {
                return i < b.len();
            }
            if i == b.len() {
                return false;
            }
            let ta = &a[i];
            let tb = &b[i];
            assert(sa.skip(i as int)[0] == ta@);
            assert(sb.skip(i as int)[0] == tb@);
            if ta.depth < tb.depth || (ta.depth == tb.depth && ta.order < tb.order) {
                return true;
            }
            if tb.depth < ta.depth || (tb.depth == ta.depth && tb.order < ta.order) {
                return false;
            }
            assert(sa.skip(i as int).drop_first() =~= sa.skip(i + 1));
            assert(sb.skip(i as int).drop_first() =~= sb.skip(i + 1));
            i = i + 1;
        }
    }
}

/// `insert_sorted` puts `e` at the first place whose entry it precedes.
proof fn lemma_insert_sorted_at(s: Seq<(TrackingView, Json)>, e: (TrackingView, Json), p: int)
    requires
        0 <= p <= s.len(),
        forall|j: int| 0 <= j < p ==> !precedes(e.0, #[trigger] s[j].0),
        p < s.len() ==> precedes(e.0, s[p].0),
    ensures
        insert_sorted(s, e) == s.insert(p, e),
    decreases s.len(),
{
    if s.len() == 0 {
        assert(s.insert(p, e) =~= seq![e]);
    } else if p == 0 {
        assert(s.insert(p, e) =~= seq![e] + s);
    } else {
        let t = s.drop_first();
        assert forall|j: int| 0 <= j < p - 1 implies !precedes(e.0, #[trigger] t[j].0) by {
            assert(t[j] == s[j + 1]);
        }
        lemma_insert_sorted_at(t, e, p - 1);
        assert(s.insert(p, e) =~= seq![s[0]] + t.insert(p - 1, e));
    }
}

/// Sorts manifests by `precedes`, keeping the given order among equals.
pub fn sort_manifests(v: Vec<(Tracking, Json)>) -> (r: Vec<(Tracking, Json)>)
    ensures
        entries_view(r@) == sort_entries(entries_view(v@)),
{
    let ghost s = entries_view(v@);
    let mut rest = v;
    let mut out: Vec<(Tracking, Json)> = Vec::new();
    let mut i: usize = 0;
    let n = rest.len();
    assert(s.take(0) =~= Seq::<(TrackingView, Json)>::empty());
    assert(entries_view(rest@) =~= s.skip(0));
    while rest.len() > 0
        invariant
            s.len() == n,
            i + rest@.len() == n,
            entries_view(rest@) == s.skip(i as int),
            entries_view(out@) == sort_entries(s.take(i as int)),
        decreases rest@.len(),
    {
        let ghost before = rest@;
        let e = rest.remove(0);
        let ghost ev = entry_view(e);
        assert(ev == s[i as int]) by {
            assert(entries_view(before)[0] == ev);
            assert(s.skip(i as int)[0] == s[i as int]);
        }
        let ghost sorted = entries_view(out@);
        let mut p: usize = 0;
        while p < out.len() && !e.0.precedes(&out[p].0)
            invariant
                p <= out@.len(),
                sorted == entries_view(out@),
                ev == entry_view(e),
                forall|j: int| 0 <= j < p ==> !precedes(ev.0, #[trigger] sorted[j].0),
            decreases out@.len() - p,
        {
            assert(sorted[p as int] == entry_view(out@[p as int]));
            p = p + 1;
        }
        proof {
            if p < out.len() {
                assert(sorted[p as int] == entry_view(out@[p as int]));
            }
            lemma_insert_sorted_at(sorted, ev, p as int);
        }
        out.insert(p, e);
        proof {
            assert(entries_view(out@) =~= sorted.insert(p as int, ev));
            assert(s.take(i + 1).drop_last() =~= s.take(i as int));
            assert(rest@ =~= before.subrange(1, before.len() as int));
            assert forall|k: int| 0 <= k < rest@.len() implies #[trigger] entries_view(rest@)[k] == s.skip(i + 1)[k] by {
                assert(entries_view(rest@)[k] == entry_view(before[k + 1]));
                assert(entries_view(before)[k + 1] == s.skip(i as int)[k + 1]);
            }
            assert(entries_view(rest@) =~= s.skip(i + 1));
        }
        i = i + 1;
    }
    assert(s.take(n as int) =~= s);
    out
}

/// No entry of `s` precedes an entry placed before it.
pub open spec fn sorted(s: Seq<(TrackingView, Json)>) -> bool {
    forall|i: int, j: int| 0 <= i < j < s.len() ==> !precedes(#[trigger] s[j].0, #[trigger] s[i].0)
}

proof fn lemma_chain_lt_irreflexive(a: Seq<TrackView>)
    ensures
        !chain_lt(a, a),
    decreases a.len(),
{
    if a.len() > 0 {
        lemma_chain_lt_irreflexive(a.drop_first());
    }
}

proof fn lemma_chain_lt_transitive(a: Seq<TrackView>, b: Seq<TrackView>, c: Seq<TrackView>)
    requires
        chain_lt(a, b),
        chain_lt(b, c),
    ensures
        chain_lt(a, c),
    decreases a.len(),
{
    if a.len() > 0 && b.len() > 0 && c.len() > 0 {
        if !track_lt(a[0], b[0]) && !track_lt(b[0], a[0]) && !track_lt(b[0], c[0]) && !track_lt(c[0], b[0]) {
            lemma_chain_lt_transitive(a.drop_first(), b.drop_first(), c.drop_first());
        }
    }
}

/// `precedes` is a strict order.
pub proof fn lemma_precedes_order(a: TrackingView, b: TrackingView, c: TrackingView)
    ensures
        !precedes(a, a),
        precedes(a, b) && precedes(b, c) ==> precedes(a, c),
{
    lemma_chain_lt_irreflexive(a.tracks);
    if precedes(a, b) && precedes(b, c) && class_of(a) == class_of(b) && class_of(b) == class_of(c) {
        lemma_chain_lt_transitive(a.tracks, b.tracks, c.tracks);
    }
}

proof fn lemma_insert_sorted(s: Seq<(TrackingView, Json)>, e: (TrackingView, Json))
    ensures
        insert_sorted(s, e).len() == s.len() + 1,
        forall|x| #[trigger] insert_sorted(s, e).contains(x) <==> (x == e || s.contains(x)),
        sorted(s) ==> sorted(insert_sorted(s, e)),
        s.no_duplicates() && !s.contains(e) ==> insert_sorted(s, e).no_duplicates(),
    decreases s.len(),
{
    let r = insert_sorted(s, e);
    if s.len() == 0 {
        assert forall|x| #[trigger] r.contains(x) <==> (x == e || s.contains(x)) by {
            if r.contains(x) {
                let k = choose|k: int| 0 <= k < r.len() && r[k] == x;
            }
            if x == e {
                assert(r[0] == x);
            }
        }
    } else if precedes(e.0, s[0].0) {
        assert forall|x| #[trigger] r.contains(x) <==> (x == e || s.contains(x)) by {
            if r.contains(x) {
                let k = choose|k: int| 0 <= k < r.len() && r[k] == x;
                if k > 0 {
                    assert(s[k - 1] == x);
                }
            }
            if x == e {
                assert(r[0] == x);
            }
            if s.contains(x) {
                let k = choose|k: int| 0 <= k < s.len() && s[k] == x;
                assert(r[k + 1] == x);
            }
        }
        if sorted(s) {
            assert forall|i: int, j: int| 0 <= i < j < r.len() implies !precedes(#[trigger] r[j].0, #[trigger] r[i].0) by {
                if i == 0 {
                    lemma_precedes_order(r[j].0, e.0, s[0].0);
                    if j > 1 {
                        assert(!precedes(s[j - 1].0, s[0].0));
                    }
                } else {
                    assert(r[i] == s[i - 1] && r[j] == s[j - 1]);
                }
            }
        }
        if s.no_duplicates() && !s.contains(e) {
            assert forall|i: int, j: int| 0 <= i < r.len() && 0 <= j < r.len() && i != j implies r[i] != r[j] by {
                if i == 0 {
                    assert(s[j - 1] == r[j]);
                } else if j == 0 {
                    assert(s[i - 1] == r[i]);
                } else {
                    assert(r[i] == s[i - 1] && r[j] == s[j - 1]);
                }
            }
        }
    } else {
        let t = s.drop_first();
        lemma_insert_sorted(t, e);
        let rt = insert_sorted(t, e);
        assert(r == seq![s[0]] + rt);
        assert forall|x| #[trigger] r.contains(x) <==> (x == e || s.contains(x)) by {
            if r.contains(x) {
                let k = choose|k: int| 0 <= k < r.len() && r[k] == x;
                if k > 0 {
                    assert(rt[k - 1] == x);
                    assert(rt.contains(x));
                    if t.contains(x) {
                        let m = choose|m: int| 0 <= m < t.len() && t[m] == x;
                        assert(s[m + 1] == x);
                    }
                } else {
                    assert(s[0] == x);
                }
            }
            if x == e {
                assert(rt.contains(x));
                let k = choose|k: int| 0 <= k < rt.len() && rt[k] == x;
                assert(r[k + 1] == x);
            }
            if s.contains(x) {
                let k = choose|k: int| 0 <= k < s.len() && s[k] == x;
                if k == 0 {
                    assert(r[0] == x);
                } else {
                    assert(t[k - 1] == x);
                    assert(rt.contains(x));
                    let m = choose|m: int| 0 <= m < rt.len() && rt[m] == x;
                    assert(r[m + 1] == x);
                }
            }
        }
        if sorted(s) {
            assert(sorted(t)) by {
                assert forall|i: int, j: int| 0 <= i < j < t.len() implies !precedes(#[trigger] t[j].0, #[trigger] t[i].0) by {
                    assert(t[i] == s[i + 1] && t[j] == s[j + 1]);
                }
            }
            assert forall|i: int, j: int| 0 <= i < j < r.len() implies !precedes(#[trigger] r[j].0, #[trigger] r[i].0) by {
                if i == 0 {
                    assert(rt.contains(r[j])) by {
                        assert(rt[j - 1] == r[j]);
                    }
                    if r[j] != e {
                        assert(t.contains(r[j]));
                        let m = choose|m: int| 0 <= m < t.len() && t[m] == r[j];
                        assert(s[m + 1] == r[j]);
                    }
                } else {
                    assert(r[i] == rt[i - 1] && r[j] == rt[j - 1]);
                }
            }
        }
        if s.no_duplicates() && !s.contains(e) {
            assert(t.no_duplicates()) by {
                assert forall|i: int, j: int| 0 <= i < t.len() && 0 <= j < t.len() && i != j implies t[i] != t[j] by {
                    assert(t[i] == s[i + 1] && t[j] == s[j + 1]);
                }
            }
            assert(!t.contains(e)) by {
                if t.contains(e) {
                    let m = choose|m: int| 0 <= m < t.len() && t[m] == e;
                    assert(s[m + 1] == e);
                }
            }
            assert(!rt.contains(s[0])) by {
                if rt.contains(s[0]) {
                    assert(s[0] != e) by {
                        assert(s.contains(s[0]));
                    }
                    assert(t.contains(s[0]));
                    let m = choose|m: int| 0 <= m < t.len() && t[m] == s[0];
                    assert(s[m + 1] == s[0]);
                }
            }
            assert forall|i: int, j: int| 0 <= i < r.len() && 0 <= j < r.len() && i != j implies r[i] != r[j] by {
                if i == 0 {
                    assert(rt[j - 1] == r[j]);
                } else if j == 0 {
                    assert(rt[i - 1] == r[i]);
                } else {
                    assert(r[i] == rt[i - 1] && r[j] == rt[j - 1]);
                }
            }
        }
    }
}

/// Sorting keeps the entries and puts them in order.
pub proof fn lemma_sort_entries(s: Seq<(TrackingView, Json)>)
    ensures
        sort_entries(s).len() == s.len(),
        forall|x| #[trigger] sort_entries(s).contains(x) <==> s.contains(x),
        sorted(sort_entries(s)),
        s.no_duplicates() ==> sort_entries(s).no_duplicates(),
    decreases s.len(),
{
    if s.len() > 0 {
        let p = s.drop_last();
        lemma_sort_entries(p);
        lemma_insert_sorted(sort_entries(p), s.last());
        if s.no_duplicates() {
            assert(p.no_duplicates()) by {
                assert forall|i: int, j: int| 0 <= i < p.len() && 0 <= j < p.len() && i != j implies p[i] != p[j] by {
                    assert(p[i] == s[i] && p[j] == s[j]);
                }
            }
            assert(!sort_entries(p).contains(s.last())) by {
                if p.contains(s.last()) {
                    let m = choose|m: int| 0 <= m < p.len() && p[m] == s.last();
                    assert(s[m] == s[s.len() - 1]);
                }
            }
        }
        assert forall|x| #[trigger] sort_entries(s).contains(x) <==> s.contains(x) by {
            if p.contains(x) {
                let k = choose|k: int| 0 <= k < p.len() && p[k] == x;
                assert(s[k] == x);
            }
            if s.contains(x) {
                let k = choose|k: int| 0 <= k < s.len() && s[k] == x;
                if k < s.len() - 1 {
                    assert(p[k] == x);
                }
            }
        }
    }
}

} // verus!
