//! Fixpoint resolution of the processing queue.
//!
//! The resolver repeatedly walks the queue in order.  A source resolves
//! when its fetched entries are at hand; a filter resolves once every
//! one of its dependencies is resolved, to the concatenation, in
//! declared-input order, of the entries of each dependency that satisfy
//! its predicate.  Passes repeat until every queue entry is resolved —
//! or until a full pass resolves nothing new, which is a fatal stall:
//! a dependency cycle and a source whose fetch never succeeds are
//! indistinguishable here, deliberately.

use vstd::prelude::*;

use crate::entry::Entry;
use crate::entry::EntryModel;
use crate::entry::PredicateModel;
use crate::entry::entry_satisfies;
use crate::entry::pred_matches;
use crate::graph::Graph;
use crate::graph::NodeKind;
use crate::plan::QueueItem;
use crate::plan::in_queue;
use crate::plan::queue_closed;
use crate::plan::queue_wf;

verus! {

/// A resolution run stalled: a full pass over the queue resolved
/// nothing new while unresolved entries remained.
#[derive(Debug)]
pub struct UnresolvableGraphError {
    /// How many queue entries had been resolved when the run stalled;
    /// always strictly less than `queue_len`.
    pub resolved_count: usize,
    /// How many entries the queue holds.
    pub queue_len: usize,
}

/// The mapping from node index to resolved entry sequence, populated
/// monotonically during a resolution run: `None` marks a node not yet
/// resolved, and an empty sequence is a valid resolved result.
pub struct ResolvedSet {
    pub slots: Vec<Option<Vec<Entry>>>,
}

impl View for ResolvedSet {
    type V = Seq<Option<Seq<EntryModel>>>;

    open spec fn view(&self) -> Seq<Option<Seq<EntryModel>>> {
        self.slots.deep_view()
    }
}

impl ResolvedSet {
    /// A fresh, empty resolved set over `n` nodes.
    pub fn new(n: usize) -> (r: Self)
        ensures
            r@.len() == n,
            forall|i: int| 0 <= i < n ==> (#[trigger] r@[i]) is None,
    {
        let mut slots: Vec<Option<Vec<Entry>>> = Vec::new();
        while slots.len() < n
            invariant
                slots@.len() <= n,
                forall|i: int| 0 <= i < slots@.len() ==> (#[trigger] slots@[i]) is None,
        decreases n - slots@.len(),
        {
            slots.push(None);
        }
        let r = ResolvedSet { slots };
        proof {
            assert forall|i: int| 0 <= i < n implies (#[trigger] r@[i]) is None by {
                assert(r@[i] == r.slots@[i].deep_view());
            }
        }
        r
    }

    /// Whether node `i` has been resolved.
    pub fn is_resolved(&self, i: usize) -> (r: bool)
        requires
            i < self@.len(),
        ensures
            r == (self@[i as int] is Some),
    {
        self.slots[i].is_some()
    }

    /// The resolved entries of node `i`.
    pub fn entries_for(&self, i: usize) -> (r: &Vec<Entry>)
        requires
            i < self@.len(),
            self@[i as int] is Some,
        ensures
            r.deep_view() == self@[i as int]->0,
    {
        self.slots[i].as_ref().unwrap()
    }

    /// Records the resolved entries of node `i`; entries, once
    /// resolved, are never removed or recomputed.
    pub fn record(&mut self, i: usize, es: Vec<Entry>)
        requires
            i < old(self)@.len(),
        ensures
            final(self)@ == old(self)@.update(i as int, Some(es.deep_view())),
    {
        let ghost pre = self@;
        self.slots[i] = Some(es);
        proof {
            assert(self@ =~= pre.update(i as int, Some(es.deep_view())));
        }
    }
}

/// The entries of `es` that satisfy `p`, in order.
pub open spec fn filtered_entries(es: Seq<EntryModel>, p: PredicateModel) -> Seq<EntryModel>
    decreases es.len(),
{
    if es.len() == 0 {
        Seq::empty()
    } else {
        let rest = filtered_entries(es.drop_first(), p);
        if pred_matches(es[0], p) {
            seq![es[0]] + rest
        } else {
            rest
        }
    }
}

/// A filter's resolved value: the concatenation, in declared-input
/// order, of each dependency's resolved entries that satisfy `p`, each
/// dependency's internal order preserved.
pub open spec fn filter_value(
    slots: Seq<Option<Seq<EntryModel>>>,
    inputs: Seq<usize>,
    p: PredicateModel,
) -> Seq<EntryModel>
    decreases inputs.len(),
{
    if inputs.len() == 0 {
        Seq::empty()
    } else {
        filtered_entries(slots[inputs[0] as int]->0, p) + filter_value(
            slots,
            inputs.drop_first(),
            p,
        )
    }
}

/// Node `i` can resolve in the current state: a source once its fetch
/// outcome is at hand, a filter once every dependency is resolved.
pub open spec fn item_ready(
    g: Graph,
    fetched: Seq<Option<Seq<EntryModel>>>,
    slots: Seq<Option<Seq<EntryModel>>>,
    i: int,
) -> bool {
    match g.nodes@[i].kind {
        NodeKind::Source { .. } => fetched[i] is Some,
        NodeKind::Filter { inputs, .. } => forall|j: int|
            0 <= j < inputs@.len() ==> slots[(#[trigger] inputs@[j]) as int] is Some,
    }
}

/// What node `i` resolves to in the current state.
pub open spec fn item_value(
    g: Graph,
    fetched: Seq<Option<Seq<EntryModel>>>,
    slots: Seq<Option<Seq<EntryModel>>>,
    i: int,
) -> Seq<EntryModel> {
    match g.nodes@[i].kind {
        NodeKind::Source { .. } => fetched[i]->0,
        NodeKind::Filter { inputs, predicate } => filter_value(slots, inputs@, predicate@),
    }
}

/// Node `i` resolves within `k` rounds: a source directly from its
/// fetch outcome, a filter once all dependencies resolve within one
/// round fewer.
pub open spec fn resolvable_within(
    g: Graph,
    q: Seq<QueueItem>,
    fetched: Seq<Option<Seq<EntryModel>>>,
    i: int,
    k: nat,
) -> bool
    decreases k,
{
    &&& in_queue(q, i)
    &&& 0 <= i < g.nodes@.len()
    &&& match g.nodes@[i].kind {
        NodeKind::Source { .. } => fetched[i] is Some,
        NodeKind::Filter { inputs, .. } => k > 0 && (forall|j: int|
            0 <= j < inputs@.len() ==> resolvable_within(
                g,
                q,
                fetched,
                (#[trigger] inputs@[j]) as int,
                (k - 1) as nat,
            )),
    }
}

/// Node `i` eventually resolves, given the queue and the fetch
/// outcomes.
pub open spec fn resolvable(
    g: Graph,
    q: Seq<QueueItem>,
    fetched: Seq<Option<Seq<EntryModel>>>,
    i: int,
) -> bool {
    exists|k: nat| resolvable_within(g, q, fetched, i, k)
}

/// Every filter equation of a resolved filter holds: its dependencies
/// are resolved and its slot carries exactly the filtered
/// concatenation of theirs.
pub open spec fn filter_equation(g: Graph, slots: Seq<Option<Seq<EntryModel>>>, i: int) -> bool {
    &&& forall|j: int|
        0 <= j < g.inputs_of(i).len() ==> slots[(#[trigger] g.inputs_of(i)[j]) as int] is Some
    &&& slots[i]->0 == filter_value(slots, g.inputs_of(i), g.predicate_of(i)@)
}

/// The resolver's running invariant: only queued, resolvable nodes are
/// resolved, sources to their fetched entries, filters to their
/// equation's value.
pub open spec fn partial_resolution(
    g: Graph,
    q: Seq<QueueItem>,
    fetched: Seq<Option<Seq<EntryModel>>>,
    slots: Seq<Option<Seq<EntryModel>>>,
) -> bool {
    &&& slots.len() == g.nodes@.len()
    &&& fetched.len() == g.nodes@.len()
    &&& forall|i: int| 0 <= i < slots.len() && (#[trigger] slots[i]) is Some ==> in_queue(q, i)
    &&& forall|i: int|
        0 <= i < slots.len() && (#[trigger] slots[i]) is Some ==> resolvable(g, q, fetched, i)
    &&& forall|i: int|
        0 <= i < slots.len() && (#[trigger] slots[i]) is Some && g.is_source(i) ==> slots[i]
            == fetched[i]
    &&& forall|i: int|
        0 <= i < slots.len() && (#[trigger] slots[i]) is Some && g.is_filter(i)
            ==> filter_equation(g, slots, i)
}

/// Every queue entry is resolved.
pub open spec fn resolution_complete(q: Seq<QueueItem>, slots: Seq<Option<Seq<EntryModel>>>) -> bool {
    forall|t: int| 0 <= t < q.len() ==> slots[(#[trigger] q[t]).node as int] is Some
}

/// The indices holding a resolved value.
pub open spec fn resolved_set(slots: Seq<Option<Seq<EntryModel>>>) -> Set<int> {
    Set::new(|i: int| 0 <= i < slots.len() && slots[i] is Some)
}

/// The queued node indices.
pub open spec fn queued_set(q: Seq<QueueItem>) -> Set<int> {
    Set::new(|i: int| in_queue(q, i))
}

/// The queued node indices that can eventually resolve.
pub open spec fn resolvable_queued_set(
    g: Graph,
    q: Seq<QueueItem>,
    fetched: Seq<Option<Seq<EntryModel>>>,
) -> Set<int> {
    Set::new(|i: int| in_queue(q, i) && resolvable(g, q, fetched, i))
}

/// Clones a sequence of entries, text for text.
pub fn clone_entries(es: &Vec<Entry>) -> (r: Vec<Entry>)
    ensures
        r.deep_view() == es.deep_view(),
{
    let mut r: Vec<Entry> = Vec::new();
    let mut i: usize = 0;
    while i < es.len()
        invariant
            i <= es@.len(),
            r@.len() == i,
            forall|j: int| 0 <= j < i ==> (#[trigger] r@[j])@ == es@[j]@,
        decreases es@.len() - i,
    {
        r.push(es[i].clone());
        i += 1;
    }
    proof {
        assert(r.deep_view() =~= es.deep_view());
    }
    r
}

/// Filtering distributes over appending one entry.
proof fn lemma_filtered_entries_push(es: Seq<EntryModel>, x: EntryModel, p: PredicateModel)
    ensures
        filtered_entries(es.push(x), p) == filtered_entries(es, p) + (if pred_matches(x, p) {
            seq![x]
        } else {
            Seq::<EntryModel>::empty()
        }),
    decreases es.len(),
{
    let tail: Seq<EntryModel> = if pred_matches(x, p) {
        seq![x]
    } else {
        Seq::empty()
    };
    let a = es.push(x);
    if es.len() == 0 {
        assert(a[0] == x);
        assert(a.drop_first() =~= Seq::<EntryModel>::empty());
        assert(filtered_entries(a.drop_first(), p) == Seq::<EntryModel>::empty());
        if pred_matches(x, p) {
            assert(filtered_entries(a, p) == seq![x] + Seq::<EntryModel>::empty());
        } else {
            assert(filtered_entries(a, p) == Seq::<EntryModel>::empty());
        }
        assert(filtered_entries(es, p) == Seq::<EntryModel>::empty());
        assert(filtered_entries(a, p) =~= filtered_entries(es, p) + tail);
    } else {
        assert(a.drop_first() =~= es.drop_first().push(x));
        lemma_filtered_entries_push(es.drop_first(), x, p);
        assert(filtered_entries(a.drop_first(), p) == filtered_entries(es.drop_first(), p) + tail);
        assert(a[0] == es[0]);
        if pred_matches(es[0], p) {
            assert(filtered_entries(a, p) == seq![es[0]] + (filtered_entries(es.drop_first(), p)
                + tail));
            assert(filtered_entries(es, p) == seq![es[0]] + filtered_entries(es.drop_first(), p));
            assert(filtered_entries(a, p) =~= filtered_entries(es, p) + tail);
        } else {
            assert(filtered_entries(a, p) == filtered_entries(es.drop_first(), p) + tail);
            assert(filtered_entries(es, p) == filtered_entries(es.drop_first(), p));
            assert(filtered_entries(a, p) =~= filtered_entries(es, p) + tail);
        }
    }
}

/// A filter's value over one more input is its value so far plus that
/// input's filtered entries.
proof fn lemma_filter_value_push(
    slots: Seq<Option<Seq<EntryModel>>>,
    xs: Seq<usize>,
    x: usize,
    p: PredicateModel,
)
    ensures
        filter_value(slots, xs.push(x), p) == filter_value(slots, xs, p) + filtered_entries(
            slots[x as int]->0,
            p,
        ),
    decreases xs.len(),
{
    let a = xs.push(x);
    let fx = filtered_entries(slots[x as int]->0, p);
    if xs.len() == 0 {
        assert(a[0] == x);
        assert(a.drop_first() =~= Seq::<usize>::empty());
        assert(filter_value(slots, a.drop_first(), p) == Seq::<EntryModel>::empty());
        assert(filter_value(slots, a, p) == fx + Seq::<EntryModel>::empty());
        assert(filter_value(slots, xs, p) == Seq::<EntryModel>::empty());
        assert(filter_value(slots, a, p) =~= filter_value(slots, xs, p) + fx);
    } else {
        assert(a.drop_first() =~= xs.drop_first().push(x));
        lemma_filter_value_push(slots, xs.drop_first(), x, p);
        assert(filter_value(slots, a.drop_first(), p) == filter_value(slots, xs.drop_first(), p)
            + fx);
        assert(a[0] == xs[0]);
        let f0 = filtered_entries(slots[xs[0] as int]->0, p);
        assert(filter_value(slots, a, p) == f0 + (filter_value(slots, xs.drop_first(), p) + fx));
        assert(filter_value(slots, xs, p) == f0 + filter_value(slots, xs.drop_first(), p));
        assert(filter_value(slots, a, p) =~= filter_value(slots, xs, p) + fx);
    }
}

/// A filter's value depends only on its dependencies' slots.
proof fn lemma_filter_value_frame(
    s1: Seq<Option<Seq<EntryModel>>>,
    s2: Seq<Option<Seq<EntryModel>>>,
    inputs: Seq<usize>,
    p: PredicateModel,
)
    requires
        forall|j: int| 0 <= j < inputs.len() ==> s1[(#[trigger] inputs[j]) as int] == s2[inputs[j] as int],
    ensures
        filter_value(s1, inputs, p) == filter_value(s2, inputs, p),
    decreases inputs.len(),
{
    if inputs.len() > 0 {
        assert(s1[inputs[0] as int] == s2[inputs[0] as int]);
        assert forall|j: int|
            0 <= j < inputs.drop_first().len() implies s1[(#[trigger] inputs.drop_first()[j]) as int]
            == s2[inputs.drop_first()[j] as int] by {
            assert(inputs.drop_first()[j] == inputs[j + 1]);
        }
        lemma_filter_value_frame(s1, s2, inputs.drop_first(), p);
    }
}

/// Resolvability within `k` rounds persists for any larger bound.
proof fn lemma_resolvable_mono(
    g: Graph,
    q: Seq<QueueItem>,
    fetched: Seq<Option<Seq<EntryModel>>>,
    i: int,
    k1: nat,
    k2: nat,
)
    requires
        resolvable_within(g, q, fetched, i, k1),
        k1 <= k2,
    ensures
        resolvable_within(g, q, fetched, i, k2),
    decreases k1,
{
    match g.nodes@[i].kind {
        NodeKind::Source { .. } => {},
        NodeKind::Filter { inputs, .. } => {
            assert forall|j: int| 0 <= j < inputs@.len() implies resolvable_within(
                g,
                q,
                fetched,
                (#[trigger] inputs@[j]) as int,
                (k2 - 1) as nat,
            ) by {
                lemma_resolvable_mono(
                    g,
                    q,
                    fetched,
                    inputs@[j] as int,
                    (k1 - 1) as nat,
                    (k2 - 1) as nat,
                );
            }
        },
    }
}

/// Finitely many resolvable nodes resolve within one uniform bound.
proof fn lemma_uniform_bound(
    g: Graph,
    q: Seq<QueueItem>,
    fetched: Seq<Option<Seq<EntryModel>>>,
    inputs: Seq<usize>,
) -> (k: nat)
    requires
        forall|j: int|
            0 <= j < inputs.len() ==> resolvable(g, q, fetched, (#[trigger] inputs[j]) as int),
    ensures
        forall|j: int|
            0 <= j < inputs.len() ==> resolvable_within(
                g,
                q,
                fetched,
                (#[trigger] inputs[j]) as int,
                k,
            ),
    decreases inputs.len(),
{
    if inputs.len() == 0 {
        0
    } else {
        let front = inputs.drop_last();
        assert forall|j: int| 0 <= j < front.len() implies resolvable(
            g,
            q,
            fetched,
            (#[trigger] front[j]) as int,
        ) by {
            assert(front[j] == inputs[j]);
        }
        let k1 = lemma_uniform_bound(g, q, fetched, front);
        assert(inputs[inputs.len() - 1] == inputs.last());
        assert(resolvable(g, q, fetched, inputs.last() as int));
        let k2 = choose|k: nat| resolvable_within(g, q, fetched, inputs.last() as int, k);
        let k: nat = if k1 > k2 {
            k1
        } else {
            k2
        };
        assert forall|j: int| 0 <= j < inputs.len() implies resolvable_within(
            g,
            q,
            fetched,
            (#[trigger] inputs[j]) as int,
            k,
        ) by {
            if j < inputs.len() - 1 {
                assert(front[j] == inputs[j]);
                assert(resolvable_within(g, q, fetched, front[j] as int, k1));
                lemma_resolvable_mono(g, q, fetched, inputs[j] as int, k1, k);
            } else {
                lemma_resolvable_mono(g, q, fetched, inputs.last() as int, k2, k);
            }
        }
        k
    }
}

/// A queued node whose prerequisites are resolved in a state that the
/// resolver's invariant describes is itself resolvable.
proof fn lemma_ready_resolvable(
    g: Graph,
    q: Seq<QueueItem>,
    fetched: Seq<Option<Seq<EntryModel>>>,
    slots: Seq<Option<Seq<EntryModel>>>,
    i: int,
)
    requires
        g.wf(),
        partial_resolution(g, q, fetched, slots),
        in_queue(q, i),
        0 <= i < g.nodes@.len(),
        item_ready(g, fetched, slots, i),
    ensures
        resolvable(g, q, fetched, i),
{
    match g.nodes@[i].kind {
        NodeKind::Source { .. } => {
            assert(resolvable_within(g, q, fetched, i, 0));
        },
        NodeKind::Filter { inputs, .. } => {
            assert(inputs@ == g.inputs_of(i));
            assert(g.is_filter(i));
            assert forall|j: int| 0 <= j < g.inputs_of(i).len() implies resolvable(
                g,
                q,
                fetched,
                (#[trigger] g.inputs_of(i)[j]) as int,
            ) by {
                assert(slots[inputs@[j] as int] is Some);
                assert(inputs@[j] == g.inputs_of(i)[j]);
                assert(0 <= (inputs@[j] as int) < slots.len());
                assert(resolvable(g, q, fetched, inputs@[j] as int));
            }
            let k = lemma_uniform_bound(g, q, fetched, g.inputs_of(i));
            assert(resolvable_within(g, q, fetched, i, k + 1)) by {
                assert forall|j: int| 0 <= j < inputs@.len() implies resolvable_within(
                    g,
                    q,
                    fetched,
                    (#[trigger] inputs@[j]) as int,
                    ((k + 1) - 1) as nat,
                ) by {
                    assert(resolvable_within(g, q, fetched, g.inputs_of(i)[j] as int, k));
                }
            }
        },
    }
}

/// Recording a ready node's value preserves the resolver's running
/// invariant and grows the resolved set by exactly that node.
proof fn lemma_record_preserves(
    g: Graph,
    q: Seq<QueueItem>,
    fetched: Seq<Option<Seq<EntryModel>>>,
    slots: Seq<Option<Seq<EntryModel>>>,
    i: int,
    v: Seq<EntryModel>,
)
    requires
        g.wf(),
        partial_resolution(g, q, fetched, slots),
        0 <= i < slots.len(),
        slots[i] is None,
        in_queue(q, i),
        item_ready(g, fetched, slots, i),
        v == item_value(g, fetched, slots, i),
    ensures
        partial_resolution(g, q, fetched, slots.update(i, Some(v))),
        resolved_set(slots.update(i, Some(v))) =~= resolved_set(slots).insert(i),
{
    let s2 = slots.update(i, Some(v));
    lemma_ready_resolvable(g, q, fetched, slots, i);
    assert forall|f: int|
        0 <= f < s2.len() && (#[trigger] s2[f]) is Some && g.is_filter(f) implies filter_equation(
        g,
        s2,
        f,
    ) by {
        if f == i {
            match g.nodes@[i].kind {
                NodeKind::Source { .. } => {},
                NodeKind::Filter { inputs, predicate } => {
                    assert(inputs@ == g.inputs_of(i));
                    assert forall|j: int|
                        0 <= j < g.inputs_of(i).len() implies s2[(#[trigger] g.inputs_of(i)[j]) as int]
                        == slots[g.inputs_of(i)[j] as int] && s2[g.inputs_of(i)[j] as int] is Some by {
                        assert(slots[inputs@[j] as int] is Some);
                        assert(g.inputs_of(i)[j] != i);
                    }
                    lemma_filter_value_frame(s2, slots, g.inputs_of(i), g.predicate_of(i)@);
                    assert(s2[i]->0 == filter_value(slots, g.inputs_of(i), g.predicate_of(i)@));
                },
            }
        } else {
            assert(slots[f] is Some);
            assert(filter_equation(g, slots, f));
            assert forall|j: int|
                0 <= j < g.inputs_of(f).len() implies s2[(#[trigger] g.inputs_of(f)[j]) as int]
                == slots[g.inputs_of(f)[j] as int] && s2[g.inputs_of(f)[j] as int] is Some by {
                assert(slots[g.inputs_of(f)[j] as int] is Some);
                assert(g.inputs_of(f)[j] != i);
            }
            lemma_filter_value_frame(s2, slots, g.inputs_of(f), g.predicate_of(f)@);
        }
    }
    assert forall|f: int|
        0 <= f < s2.len() && (#[trigger] s2[f]) is Some && g.is_source(f) implies s2[f]
        == fetched[f] by {
        if f == i {
            assert(fetched[i] is Some);
            assert(fetched[i] == Some(fetched[i]->0));
        }
    }
}

/// The resolved set is finite and no larger than the slot count.
proof fn lemma_resolved_set_bounds(slots: Seq<Option<Seq<EntryModel>>>)
    ensures
        resolved_set(slots).finite(),
        resolved_set(slots).len() <= slots.len(),
{
    vstd::set_lib::lemma_int_range(0, slots.len() as int);
    vstd::set_lib::lemma_len_subset(
        resolved_set(slots),
        vstd::set_lib::set_int_range(0, slots.len() as int),
    );
}

/// Attempts to resolve filter `i`: `None` while some dependency is
/// still unresolved, otherwise the filtered concatenation of its
/// dependencies' entries, in declared-input order.
#[verifier::loop_isolation(false)]
fn resolve_filter(g: &Graph, i: usize, rs: &ResolvedSet) -> (r: Option<Vec<Entry>>)
    requires
        g.wf(),
        i < g.nodes@.len(),
        g.is_filter(i as int),
        rs@.len() == g.nodes@.len(),
    ensures
        (r is Some) == item_ready(*g, Seq::empty(), rs@, i as int),
        (r matches Some(es) ==> es.deep_view() == filter_value(
            rs@,
            g.inputs_of(i as int),
            g.predicate_of(i as int)@,
        )),
{
    let node = &g.nodes[i];
    match &node.kind {
        NodeKind::Filter { inputs, predicate } => {
            assert(inputs@ == g.inputs_of(i as int));
            assert(predicate == g.predicate_of(i as int));
            let m = inputs.len();
            let mut j: usize = 0;
            while j < m
                invariant
                    j <= m,
                    forall|j2: int|
                        0 <= j2 < j ==> rs@[(#[trigger] inputs@[j2]) as int] is Some,
                decreases m - j,
            {
                let d = inputs[j];
                assert(d < g.nodes@.len());
                if !rs.is_resolved(d) {
                    return None;
                }
                j += 1;
            }
            let ghost p = g.predicate_of(i as int)@;
            let mut out: Vec<Entry> = Vec::new();
            let mut j: usize = 0;
            while j < m
                invariant
                    j <= m,
                    forall|j2: int|
                        0 <= j2 < m ==> rs@[(#[trigger] inputs@[j2]) as int] is Some,
                    out.deep_view() == filter_value(rs@, inputs@.take(j as int), p),
                decreases m - j,
            {
                let d = inputs[j];
                assert(d < g.nodes@.len());
                let es = rs.entries_for(d);
                let ghost esv = rs@[d as int]->0;
                let mut k: usize = 0;
                while k < es.len()
                    invariant
                        k <= es@.len(),
                        es.deep_view() == esv,
                        out.deep_view() == filter_value(rs@, inputs@.take(j as int), p)
                            + filtered_entries(esv.take(k as int), p),
                    decreases es@.len() - k,
                {
                    let ghost out0 = out.deep_view();
                    let keep = entry_satisfies(&es[k], predicate);
                    proof {
                        assert(es@[k as int]@ == esv[k as int]);
                        assert(esv.take(k + 1).drop_last() =~= esv.take(k as int));
                        assert(esv.take(k + 1) =~= esv.take(k as int).push(esv[k as int]));
                        lemma_filtered_entries_push(esv.take(k as int), esv[k as int], p);
                    }
                    if keep {
                        out.push(es[k].clone());
                        proof {
                            assert(out.deep_view() =~= out0.push(esv[k as int]));
                            assert(out.deep_view() =~= filter_value(rs@, inputs@.take(j as int), p)
                                + filtered_entries(esv.take(k + 1), p));
                        }
                    } else {
                        proof {
                            assert(out.deep_view() =~= filter_value(rs@, inputs@.take(j as int), p)
                                + filtered_entries(esv.take(k + 1), p));
                        }
                    }
                    k += 1;
                }
                proof {
                    assert(esv.take(es@.len() as int) =~= esv);
                    assert(inputs@.take(j + 1) =~= inputs@.take(j as int).push(inputs@[j as int]));
                    lemma_filter_value_push(rs@, inputs@.take(j as int), inputs@[j as int], p);
                    assert(out.deep_view() =~= filter_value(rs@, inputs@.take(j + 1), p));
                }
                j += 1;
            }
            proof {
                assert(inputs@.take(m as int) =~= inputs@);
            }
            Some(out)
        },
        NodeKind::Source { .. } => {
            proof {
                assert(false);
            }
            None
        },
    }
}

/// Attempts to resolve one queue item against the current state:
/// a source from its fetch outcome, a filter from its dependencies'
/// resolved entries.  `None` leaves the item unresolved for this pass.
pub fn resolve_item(
    g: &Graph,
    i: usize,
    fetched: &Vec<Option<Vec<Entry>>>,
    rs: &ResolvedSet,
) -> (r: Option<Vec<Entry>>)
    requires
        g.wf(),
        i < g.nodes@.len(),
        fetched@.len() == g.nodes@.len(),
        rs@.len() == g.nodes@.len(),
    ensures
        (r is Some) == item_ready(*g, fetched.deep_view(), rs@, i as int),
        (r matches Some(es) ==> es.deep_view() == item_value(
            *g,
            fetched.deep_view(),
            rs@,
            i as int,
        )),
{
    let node = &g.nodes[i];
    match &node.kind {
        NodeKind::Source { .. } => {
            match &fetched[i] {
                Some(es) => {
                    proof {
                        assert(fetched.deep_view()[i as int] is Some);
                        assert(fetched.deep_view()[i as int]->0 == es.deep_view());
                    }
                    Some(clone_entries(es))
                },
                None => {
                    proof {
                        assert(fetched.deep_view()[i as int] is None);
                    }
                    None
                },
            }
        },
        NodeKind::Filter { .. } => {
            let r = resolve_filter(g, i, rs);
            proof {
                assert(item_ready(*g, Seq::empty(), rs@, i as int) == item_ready(
                    *g,
                    fetched.deep_view(),
                    rs@,
                    i as int,
                ));
            }
            r
        },
    }
}

/// Readiness persists as the resolved set grows.
proof fn lemma_ready_monotone(
    g: Graph,
    fetched: Seq<Option<Seq<EntryModel>>>,
    s1: Seq<Option<Seq<EntryModel>>>,
    s2: Seq<Option<Seq<EntryModel>>>,
    i: int,
)
    requires
        g.wf(),
        0 <= i < g.nodes@.len(),
        s1.len() == g.nodes@.len(),
        s2.len() == s1.len(),
        forall|x: int| 0 <= x < s1.len() && (#[trigger] s1[x]) is Some ==> s2[x] == s1[x],
        item_ready(g, fetched, s1, i),
    ensures
        item_ready(g, fetched, s2, i),
{
    match g.nodes@[i].kind {
        NodeKind::Source { .. } => {},
        NodeKind::Filter { inputs, .. } => {
            assert(g.is_filter(i));
            assert(inputs@ == g.inputs_of(i));
            assert forall|j: int|
                0 <= j < inputs@.len() implies s2[(#[trigger] inputs@[j]) as int] is Some by {
                assert(inputs@[j] == g.inputs_of(i)[j]);
                assert(0 <= (inputs@[j] as int) < s1.len());
                assert(s1[inputs@[j] as int] is Some);
            }
        },
    }
}

/// The queued node indices form a finite set with one member per
/// queue entry.
proof fn lemma_queued_set_card(q: Seq<QueueItem>)
    requires
        forall|t1: int, t2: int|
            0 <= t1 < t2 < q.len() ==> (#[trigger] q[t1]).node != (#[trigger] q[t2]).node,
    ensures
        queued_set(q).finite(),
        queued_set(q).len() == q.len(),
{
    let ns = Seq::new(q.len(), |t: int| q[t].node as int);
    assert(ns.no_duplicates()) by {
        assert forall|t1: int, t2: int|
            0 <= t1 < ns.len() && 0 <= t2 < ns.len() && t1 != t2 implies ns[t1] != ns[t2] by {
            if t1 < t2 {
                assert(q[t1].node != q[t2].node);
            } else {
                assert(q[t2].node != q[t1].node);
            }
        }
    }
    ns.unique_seq_to_set();
    vstd::seq_lib::seq_to_set_is_finite::<int>(ns);
    assert(queued_set(q) =~= ns.to_set()) by {
        assert forall|i: int| queued_set(q).contains(i) implies ns.to_set().contains(i) by {
            let t = choose|t: int| 0 <= t < q.len() && (#[trigger] q[t]).node == i;
            assert(ns[t] == i);
        }
        assert forall|i: int| ns.to_set().contains(i) implies queued_set(q).contains(i) by {
            let t = choose|t: int| 0 <= t < ns.len() && ns[t] == i;
            assert(q[t].node == i);
        }
    }
}

/// Once a full pass resolves nothing new, everything resolvable is
/// already resolved.
proof fn lemma_stalled_within(
    g: Graph,
    q: Seq<QueueItem>,
    fetched: Seq<Option<Seq<EntryModel>>>,
    slots: Seq<Option<Seq<EntryModel>>>,
    i: int,
    k: nat,
)
    requires
        g.wf(),
        partial_resolution(g, q, fetched, slots),
        forall|t: int|
            0 <= t < q.len() && item_ready(g, fetched, slots, (#[trigger] q[t]).node as int)
                ==> slots[q[t].node as int] is Some,
        resolvable_within(g, q, fetched, i, k),
    ensures
        slots[i] is Some,
    decreases k,
{
    let t = choose|t: int| 0 <= t < q.len() && (#[trigger] q[t]).node == i;
    match g.nodes@[i].kind {
        NodeKind::Source { .. } => {
            assert(item_ready(g, fetched, slots, i));
            assert(slots[q[t].node as int] is Some);
        },
        NodeKind::Filter { inputs, .. } => {
            assert(k > 0);
            assert forall|j: int|
                0 <= j < inputs@.len() implies slots[(#[trigger] inputs@[j]) as int] is Some by {
                assert(resolvable_within(g, q, fetched, inputs@[j] as int, (k - 1) as nat));
                lemma_stalled_within(g, q, fetched, slots, inputs@[j] as int, (k - 1) as nat);
            }
            assert(item_ready(g, fetched, slots, i));
            assert(slots[q[t].node as int] is Some);
        },
    }
}

/// One fixpoint pass: walks the queue in order and resolves every item
/// whose prerequisites are already at hand, skipping items resolved
/// earlier.
///
/// Public so a caller can drive the passes itself and refetch a
/// still-unresolved source between them — the fetch collaborator is
/// invoked once per node per pass, and a failure is local to one pass.
/// Between passes a caller may replace the fetch outcome of a node not
/// yet resolved; an already-resolved node's outcome must stay as it
/// was, which keeps the running invariant.  `count` must carry the
/// resolved tally from pass to pass (zero at the start): the run is
/// complete when it reaches the queue's length, and stalled — fatally —
/// when a pass leaves it unchanged.
#[verifier::loop_isolation(false)]
pub fn run_pass(
    g: &Graph,
    queue: &Vec<QueueItem>,
    fetched: &Vec<Option<Vec<Entry>>>,
    rs: &mut ResolvedSet,
    count: &mut usize,
)
    requires
        g.wf(),
        queue_wf(*g, queue@),
        fetched@.len() == g.nodes@.len(),
        partial_resolution(*g, queue@, fetched.deep_view(), old(rs)@),
        *old(count) == resolved_set(old(rs)@).len(),
    ensures
        partial_resolution(*g, queue@, fetched.deep_view(), final(rs)@),
        final(rs)@.len() == old(rs)@.len(),
        *final(count) == resolved_set(final(rs)@).len(),
        forall|i: int|
            0 <= i < old(rs)@.len() && (#[trigger] old(rs)@[i]) is Some ==> final(rs)@[i] == old(
                rs,
            )@[i],
        forall|t: int|
            0 <= t < queue@.len() && item_ready(
                *g,
                fetched.deep_view(),
                old(rs)@,
                (#[trigger] queue@[t]).node as int,
            ) ==> final(rs)@[queue@[t].node as int] is Some,
{
    broadcast use vstd::set::group_set_axioms;

    let total = fetched.len();
    let ghost fv = fetched.deep_view();
    let ghost slots0 = rs@;
    let mut t: usize = 0;
    while t < queue.len()
        invariant
            t <= queue@.len(),
            rs@.len() == slots0.len(),
            partial_resolution(*g, queue@, fv, rs@),
            *count == resolved_set(rs@).len(),
            forall|i: int|
                0 <= i < slots0.len() && (#[trigger] slots0[i]) is Some ==> rs@[i] == slots0[i],
            forall|t2: int|
                0 <= t2 < t && item_ready(*g, fv, slots0, (#[trigger] queue@[t2]).node as int)
                    ==> rs@[queue@[t2].node as int] is Some,
        decreases queue@.len() - t,
    {
        let node_i = queue[t].node;
        assert(node_i < g.nodes@.len());
        assert(in_queue(queue@, node_i as int));
        if !rs.is_resolved(node_i) {
            match resolve_item(g, node_i, fetched, rs) {
                Some(es) => {
                    proof {
                        lemma_record_preserves(
                            *g,
                            queue@,
                            fv,
                            rs@,
                            node_i as int,
                            es.deep_view(),
                        );
                        let all_below = vstd::set_lib::set_int_range(0, rs@.len() as int);
                        vstd::set_lib::lemma_int_range(0, rs@.len() as int);
                        assert(resolved_set(rs@).subset_of(all_below.remove(node_i as int)));
                        assert(all_below.remove(node_i as int).len() == rs@.len() - 1);
                        vstd::set_lib::lemma_len_subset(
                            resolved_set(rs@),
                            all_below.remove(node_i as int),
                        );
                        assert(*count < total);
                    }
                    let ghost pre = rs@;
                    rs.record(node_i, es);
                    proof {
                        assert(resolved_set(rs@) =~= resolved_set(pre).insert(node_i as int));
                        lemma_resolved_set_bounds(pre);
                        lemma_resolved_set_bounds(rs@);
                        assert(!resolved_set(pre).contains(node_i as int));
                        assert(resolved_set(rs@).len() == resolved_set(pre).len() + 1);
                    }
                    *count += 1;
                },
                None => {
                    proof {
                        if item_ready(*g, fv, slots0, node_i as int) {
                            lemma_ready_monotone(*g, fv, slots0, rs@, node_i as int);
                        }
                    }
                },
            }
        }
        t += 1;
    }
}

/// The outcome of a successful resolution run.
pub struct RunOutcome {
    /// Every queue entry's resolved entry sequence.
    pub resolved: ResolvedSet,
    /// How many passes the run took: at most one per queue entry.
    pub passes: usize,
}

/// Runs fixpoint resolution over the queue with the fetch outcomes
/// fixed for the whole run: passes repeat until every entry is
/// resolved (`Ok`) or a full pass resolves nothing new (`Err`).  On a
/// stall no partial result is exposed: the whole run fails.  A caller
/// that refetches failing sources between passes drives [`run_pass`]
/// itself instead.
#[verifier::loop_isolation(false)]
pub fn run_resolver(
    g: &Graph,
    queue: &Vec<QueueItem>,
    fetched: &Vec<Option<Vec<Entry>>>,
) -> (r: Result<RunOutcome, UnresolvableGraphError>)
    requires
        g.wf(),
        queue_wf(*g, queue@),
        fetched@.len() == g.nodes@.len(),
    ensures
        (r matches Ok(out) ==> {
            &&& partial_resolution(*g, queue@, fetched.deep_view(), out.resolved@)
            &&& resolution_complete(queue@, out.resolved@)
            &&& out.resolved@.len() == g.nodes@.len()
            &&& 1 <= out.passes
            &&& queue@.len() > 0 ==> out.passes <= queue@.len()
        }),
        (r matches Err(e) ==> {
            &&& e.queue_len == queue@.len()
            &&& e.resolved_count == resolvable_queued_set(*g, queue@, fetched.deep_view()).len()
            &&& e.resolved_count < e.queue_len
        }),
        (r is Ok) <==> (forall|t: int|
            0 <= t < queue@.len() ==> resolvable(
                *g,
                queue@,
                fetched.deep_view(),
                (#[trigger] queue@[t]).node as int,
            )),
{
    broadcast use vstd::set::group_set_axioms;

    let ghost fv = fetched.deep_view();
    let n = g.nodes.len();
    let qlen = queue.len();
    let mut rs = ResolvedSet::new(n);
    let mut count: usize = 0;
    let mut prev: usize = 0;
    let mut passes: usize = 0;
    proof {
        assert(resolved_set(rs@) =~= Set::<int>::empty());
        lemma_queued_set_card(queue@);
    }
    loop
        invariant
            rs@.len() == n,
            n == g.nodes@.len(),
            partial_resolution(*g, queue@, fv, rs@),
            count == resolved_set(rs@).len(),
            count == prev,
            count <= queue@.len(),
            passes <= count,
            passes > 0 ==> count < queue@.len(),
        decreases queue@.len() - prev,
    {
        proof {
            lemma_resolved_set_bounds(rs@);
        }
        passes += 1;
        let ghost slots_before = rs@;
        run_pass(g, queue, fetched, &mut rs, &mut count);
        proof {
            // The resolved set only grew, and it stays within the queue.
            assert(resolved_set(slots_before).subset_of(resolved_set(rs@))) by {
                assert forall|i: int|
                    resolved_set(slots_before).contains(i) implies resolved_set(rs@).contains(
                    i,
                ) by {
                    assert(rs@[i] == slots_before[i]);
                }
            }
            lemma_resolved_set_bounds(slots_before);
            lemma_resolved_set_bounds(rs@);
            vstd::set_lib::lemma_len_subset(resolved_set(slots_before), resolved_set(rs@));
            assert(resolved_set(rs@).subset_of(queued_set(queue@))) by {
                assert forall|i: int|
                    resolved_set(rs@).contains(i) implies queued_set(queue@).contains(i) by {
                    assert(in_queue(queue@, i));
                }
            }
            vstd::set_lib::lemma_len_subset(resolved_set(rs@), queued_set(queue@));
        }
        if count == queue.len() {
            proof {
                vstd::set_lib::lemma_subset_equality(resolved_set(rs@), queued_set(queue@));
                assert forall|t: int| 0 <= t < queue@.len() implies rs@[(#[trigger] queue@[t]).node as int]
                    is Some by {
                    assert(queued_set(queue@).contains(queue@[t].node as int));
                    assert(resolved_set(rs@).contains(queue@[t].node as int));
                }
                assert forall|t: int| 0 <= t < queue@.len() implies resolvable(
                    *g,
                    queue@,
                    fv,
                    (#[trigger] queue@[t]).node as int,
                ) by {
                    assert(rs@[queue@[t].node as int] is Some);
                }
            }
            return Ok(RunOutcome { resolved: rs, passes });
        }
        if count == prev {
            proof {
                // No progress: the pass left the state exactly as it was.
                vstd::set_lib::lemma_subset_equality(
                    resolved_set(slots_before),
                    resolved_set(rs@),
                );
                assert(rs@ =~= slots_before) by {
                    assert forall|i: int| 0 <= i < rs@.len() implies rs@[i] == slots_before[i] by {
                        if slots_before[i] is Some {
                        } else {
                            if rs@[i] is Some {
                                assert(resolved_set(rs@).contains(i));
                                assert(resolved_set(slots_before).contains(i));
                            }
                        }
                    }
                }
                // Everything resolvable is therefore already resolved.
                assert forall|i: int|
                    in_queue(queue@, i) && resolvable(*g, queue@, fv, i) implies rs@[i]
                    is Some by {
                    let k = choose|k: nat| resolvable_within(*g, queue@, fv, i, k);
                    lemma_stalled_within(*g, queue@, fv, rs@, i, k);
                }
                assert(resolved_set(rs@) =~= resolvable_queued_set(*g, queue@, fv)) by {
                    assert forall|i: int|
                        resolved_set(rs@).contains(i) implies resolvable_queued_set(
                        *g,
                        queue@,
                        fv,
                    ).contains(i) by {
                        assert(in_queue(queue@, i) && resolvable(*g, queue@, fv, i));
                    }
                }
                // Some queued node can never resolve.
                assert(!(forall|t: int|
                    0 <= t < queue@.len() ==> resolvable(
                        *g,
                        queue@,
                        fv,
                        (#[trigger] queue@[t]).node as int,
                    ))) by {
                    if forall|t: int|
                        0 <= t < queue@.len() ==> resolvable(
                            *g,
                            queue@,
                            fv,
                            (#[trigger] queue@[t]).node as int,
                        ) {
                        assert forall|t: int| 0 <= t < queue@.len() implies rs@[(
                        #[trigger] queue@[t]).node as int] is Some by {
                            assert(resolvable(*g, queue@, fv, queue@[t].node as int));
                            assert(in_queue(queue@, queue@[t].node as int));
                        }
                        assert(queued_set(queue@).subset_of(resolved_set(rs@))) by {
                            assert forall|i: int|
                                queued_set(queue@).contains(i) implies resolved_set(
                                rs@,
                            ).contains(i) by {
                                let t = choose|t: int|
                                    0 <= t < queue@.len() && (#[trigger] queue@[t]).node == i;
                                assert(rs@[queue@[t].node as int] is Some);
                            }
                        }
                        vstd::set_lib::lemma_len_subset(queued_set(queue@), resolved_set(rs@));
                        assert(false);
                    }
                }
            }
            return Err(
                UnresolvableGraphError { resolved_count: count, queue_len: queue.len() },
            );
        }
        prev = count;
    }
}

/// A queued node whose dependency edges all descend a ranking resolves
/// within one round more than its rank.
proof fn lemma_ranked_resolvable(
    g: Graph,
    q: Seq<QueueItem>,
    fetched: Seq<Option<Seq<EntryModel>>>,
    rank: spec_fn(int) -> nat,
    i: int,
)
    requires
        g.wf(),
        queue_closed(g, q),
        in_queue(q, i),
        0 <= i < g.nodes@.len(),
        forall|t: int|
            0 <= t < q.len() && g.is_source((#[trigger] q[t]).node as int) ==> fetched[q[t].node as int]
                is Some,
        forall|a: int, b: int|
            in_queue(q, a) && #[trigger] g.edge(a, b) ==> rank(b) < rank(a),
    ensures
        resolvable_within(g, q, fetched, i, rank(i) + 1),
    decreases rank(i),
{
    let t = choose|t: int| 0 <= t < q.len() && (#[trigger] q[t]).node == i;
    match g.nodes@[i].kind {
        NodeKind::Source { .. } => {
            assert(g.is_source(q[t].node as int));
            assert(fetched[i] is Some);
        },
        NodeKind::Filter { inputs, .. } => {
            assert(g.is_filter(i));
            assert(inputs@ == g.inputs_of(i));
            assert forall|j: int|
                0 <= j < inputs@.len() implies resolvable_within(
                g,
                q,
                fetched,
                (#[trigger] inputs@[j]) as int,
                ((rank(i) + 1) - 1) as nat,
            ) by {
                let d = inputs@[j] as int;
                assert(g.edge(i, d)) by {
                    assert(g.inputs_of(i)[j] == inputs@[j]);
                }
                assert(g.edge(q[t].node as int, d));
                assert(in_queue(q, d));
                assert(rank(d) < rank(i));
                assert(0 <= d < g.nodes@.len());
                lemma_ranked_resolvable(g, q, fetched, rank, d);
                lemma_resolvable_mono(g, q, fetched, d, rank(d) + 1, rank(i) as nat);
            }
        },
    }
}

/// Law: in an acyclic configuration — witnessed by a ranking that every
/// dependency edge among queued nodes descends — whose queued sources
/// all have fetched entries at hand, every queued node is resolvable,
/// so the resolver terminates with every queue entry resolved, in at
/// most one pass per entry.
pub proof fn lemma_acyclic_run_resolves(
    g: Graph,
    q: Seq<QueueItem>,
    fetched: Seq<Option<Seq<EntryModel>>>,
    rank: spec_fn(int) -> nat,
)
    requires
        g.wf(),
        queue_wf(g, q),
        queue_closed(g, q),
        forall|t: int|
            0 <= t < q.len() && g.is_source((#[trigger] q[t]).node as int) ==> fetched[q[t].node as int]
                is Some,
        forall|a: int, b: int|
            in_queue(q, a) && #[trigger] g.edge(a, b) ==> rank(b) < rank(a),
    ensures
        forall|t: int|
            0 <= t < q.len() ==> resolvable(g, q, fetched, (#[trigger] q[t]).node as int),
{
    assert forall|t: int| 0 <= t < q.len() implies resolvable(
        g,
        q,
        fetched,
        (#[trigger] q[t]).node as int,
    ) by {
        let i = q[t].node as int;
        assert(in_queue(q, i));
        lemma_ranked_resolvable(g, q, fetched, rank, i);
    }
}

/// Neither of two mutually dependent filters resolves within any
/// number of rounds.
proof fn lemma_mutual_not_within(
    g: Graph,
    q: Seq<QueueItem>,
    fetched: Seq<Option<Seq<EntryModel>>>,
    a: int,
    b: int,
    k: nat,
)
    requires
        g.edge(a, b),
        g.edge(b, a),
    ensures
        !resolvable_within(g, q, fetched, a, k),
        !resolvable_within(g, q, fetched, b, k),
    decreases k,
{
    if k > 0 {
        lemma_mutual_not_within(g, q, fetched, a, b, (k - 1) as nat);
        if resolvable_within(g, q, fetched, a, k) {
            let ja = choose|j: int|
                0 <= j < g.inputs_of(a).len() && g.inputs_of(a)[j] == b;
            assert(resolvable_within(g, q, fetched, g.inputs_of(a)[ja] as int, (k - 1) as nat));
            assert(false);
        }
        if resolvable_within(g, q, fetched, b, k) {
            let jb = choose|j: int|
                0 <= j < g.inputs_of(b).len() && g.inputs_of(b)[j] == a;
            assert(resolvable_within(g, q, fetched, g.inputs_of(b)[jb] as int, (k - 1) as nat));
            assert(false);
        }
    }
}

/// Law: a filter that lists itself as an input, or two filters that
/// list each other (take `a == b` for the self-reference), can never
/// resolve, whatever was fetched — so a run over a queue holding one
/// stalls with `UnresolvableGraphError` and a resolved count strictly
/// below the queue's size.
pub proof fn lemma_mutual_dependency_unresolvable(
    g: Graph,
    q: Seq<QueueItem>,
    fetched: Seq<Option<Seq<EntryModel>>>,
    a: int,
    b: int,
)
    requires
        g.edge(a, b),
        g.edge(b, a),
    ensures
        !resolvable(g, q, fetched, a),
        !resolvable(g, q, fetched, b),
{
    assert forall|k: nat| !resolvable_within(g, q, fetched, a, k) && !resolvable_within(
        g,
        q,
        fetched,
        b,
        k,
    ) by {
        lemma_mutual_not_within(g, q, fetched, a, b, k);
    }
}

/// Two complete resolutions agree on a node that resolves within `k`
/// rounds.
proof fn lemma_value_unique_within(
    g: Graph,
    q: Seq<QueueItem>,
    fetched: Seq<Option<Seq<EntryModel>>>,
    s1: Seq<Option<Seq<EntryModel>>>,
    s2: Seq<Option<Seq<EntryModel>>>,
    i: int,
    k: nat,
)
    requires
        g.wf(),
        partial_resolution(g, q, fetched, s1),
        resolution_complete(q, s1),
        partial_resolution(g, q, fetched, s2),
        resolution_complete(q, s2),
        resolvable_within(g, q, fetched, i, k),
    ensures
        s1[i] == s2[i],
    decreases k,
{
    let t = choose|t: int| 0 <= t < q.len() && (#[trigger] q[t]).node == i;
    assert(s1[q[t].node as int] is Some);
    assert(s2[q[t].node as int] is Some);
    match g.nodes@[i].kind {
        NodeKind::Source { .. } => {
            assert(g.is_source(i));
            assert(s1[i] == fetched[i]);
            assert(s2[i] == fetched[i]);
        },
        NodeKind::Filter { inputs, .. } => {
            assert(g.is_filter(i));
            assert(inputs@ == g.inputs_of(i));
            assert(filter_equation(g, s1, i));
            assert(filter_equation(g, s2, i));
            assert forall|j: int|
                0 <= j < g.inputs_of(i).len() implies s1[(#[trigger] g.inputs_of(i)[j]) as int]
                == s2[g.inputs_of(i)[j] as int] by {
                assert(inputs@[j] == g.inputs_of(i)[j]);
                assert(resolvable_within(g, q, fetched, inputs@[j] as int, (k - 1) as nat));
                lemma_value_unique_within(
                    g,
                    q,
                    fetched,
                    s1,
                    s2,
                    g.inputs_of(i)[j] as int,
                    (k - 1) as nat,
                );
            }
            lemma_filter_value_frame(s1, s2, g.inputs_of(i), g.predicate_of(i)@);
            assert(s1[i]->0 == s2[i]->0);
            assert(s1[i] == Some(s1[i]->0));
            assert(s2[i] == Some(s2[i]->0));
        },
    }
}

/// Law: resolution is deterministic.  Two complete runs over the same
/// registry and queue, with the same fetch outcomes, resolve every
/// node to identical entry sequences — running the resolver twice on
/// fresh resolved sets yields identical output.
pub proof fn lemma_resolution_deterministic(
    g: Graph,
    q: Seq<QueueItem>,
    fetched: Seq<Option<Seq<EntryModel>>>,
    s1: Seq<Option<Seq<EntryModel>>>,
    s2: Seq<Option<Seq<EntryModel>>>,
)
    requires
        g.wf(),
        partial_resolution(g, q, fetched, s1),
        resolution_complete(q, s1),
        partial_resolution(g, q, fetched, s2),
        resolution_complete(q, s2),
    ensures
        s1 == s2,
{
    assert forall|i: int| 0 <= i < s1.len() implies s1[i] == s2[i] by {
        if s1[i] is Some {
            let k = choose|k: nat| resolvable_within(g, q, fetched, i, k);
            lemma_value_unique_within(g, q, fetched, s1, s2, i, k);
        } else {
            if s2[i] is Some {
                assert(in_queue(q, i));
                let t = choose|t: int| 0 <= t < q.len() && (#[trigger] q[t]).node == i;
                assert(s1[q[t].node as int] is Some);
                assert(false);
            }
        }
    }
    assert(s1 =~= s2);
}

} // verus!
