//! Expanding the declared outputs backward into a processing queue.
//!
//! The planner seeds a working list with the declared outputs, then
//! repeatedly sweeps the not-yet-expanded suffix: a source contributes
//! nothing, a filter contributes its not-yet-seen dependency names.
//! Fresh names are appended (deduplicated) and the sweep repeats until
//! a pass contributes nothing new.  Reversing the working list then
//! puts names introduced later — deeper dependencies — before their
//! dependents, and the last `outputs_count` positions are marked as
//! outputs (a positional marking, deliberately, not an identity check).

use vstd::prelude::*;

use crate::graph::Graph;
use crate::graph::NodeKind;
use vstd::set_lib::lemma_int_range;
use vstd::set_lib::lemma_len_subset;
use vstd::set_lib::set_int_range;

verus! {

/// One processing-queue entry: a registry node, and whether its
/// resolved value is exposed as an output.
pub struct QueueItem {
    pub node: usize,
    pub is_output: bool,
}

/// Node `i` stands somewhere in the queue.
pub open spec fn in_queue(q: Seq<QueueItem>, i: int) -> bool {
    exists|t: int| 0 <= t < q.len() && (#[trigger] q[t]).node == i
}

/// Value `x` stands somewhere in the working list `w`.
pub open spec fn seq_has(w: Seq<usize>, x: int) -> bool {
    exists|p: int| 0 <= p < w.len() && (#[trigger] w[p]) == x
}

/// `flags[x]` records whether `x` occurs among the first `bound`
/// entries of `w`.
pub open spec fn marks_prefix(flags: Seq<bool>, w: Seq<usize>, bound: int) -> bool {
    forall|x: int|
        0 <= x < flags.len() ==> ((#[trigger] flags[x]) <==> exists|p: int|
            0 <= p < bound && p < w.len() && w[p] == x)
}

/// Every entry of `w` lies below `n`.
pub open spec fn entries_below(w: Seq<usize>, n: int) -> bool {
    forall|p: int| 0 <= p < w.len() ==> (#[trigger] w[p]) < n
}

/// No value occurs twice in `w`.
pub open spec fn entries_distinct(w: Seq<usize>) -> bool {
    forall|p1: int, p2: int| 0 <= p1 < p2 < w.len() ==> (#[trigger] w[p1]) != (#[trigger] w[p2])
}

/// Every entry of `w` is reachable from the declared outputs.
pub open spec fn entries_reachable(g: Graph, w: Seq<usize>) -> bool {
    forall|p: int| 0 <= p < w.len() ==> reachable(g, (#[trigger] w[p]) as int)
}

/// `ws` records, for every entry of `w` from position `oc` on, the
/// earlier position whose filter introduced it as a dependency.
pub open spec fn entries_witnessed(g: Graph, w: Seq<usize>, ws: Seq<int>, oc: int) -> bool {
    &&& ws.len() == w.len()
    &&& forall|p: int|
        oc <= p < w.len() ==> 0 <= (#[trigger] ws[p]) < p && g.edge(
            w[ws[p]] as int,
            w[p] as int,
        )
}

/// `src` records, for every side-buffer entry, the working-list
/// position below `hi` whose filter listed it as a dependency.
pub open spec fn ext_witnessed(
    g: Graph,
    w: Seq<usize>,
    ext: Seq<usize>,
    src: Seq<int>,
    hi: int,
) -> bool {
    &&& src.len() == ext.len()
    &&& forall|e: int|
        0 <= e < ext.len() ==> 0 <= (#[trigger] src[e]) < hi && src[e] < w.len() && g.edge(
            w[src[e]] as int,
            ext[e] as int,
        )
}

/// Every dependency of the first `bound` entries of `w` stands
/// somewhere in `w`.
pub open spec fn deps_listed_upto(g: Graph, w: Seq<usize>, bound: int) -> bool {
    forall|p: int, d: int|
        0 <= p < bound && p < w.len() && #[trigger] g.edge((#[trigger] w[p]) as int, d)
            ==> seq_has(w, d)
}

/// Every dependency of entries `lo..hi` of `w` stands in `w` or in the
/// side buffer `ext`.
pub open spec fn deps_covered(g: Graph, w: Seq<usize>, lo: int, hi: int, ext: Seq<usize>) -> bool {
    forall|p: int, d: int|
        lo <= p < hi && p < w.len() && #[trigger] g.edge((#[trigger] w[p]) as int, d) ==> seq_has(
            w,
            d,
        ) || seq_has(ext, d)
}

/// `p` is a dependency path: it starts at a declared output and each
/// step goes from a filter to one of its declared dependencies.
pub open spec fn is_dep_path(g: Graph, p: Seq<int>) -> bool {
    &&& p.len() > 0
    &&& g.is_output_node(p[0])
    &&& forall|t: int| 0 <= t < p.len() - 1 ==> g.edge(#[trigger] p[t], p[t + 1])
}

/// Node `i` is reachable from the declared outputs along dependency
/// edges.
pub open spec fn reachable(g: Graph, i: int) -> bool {
    exists|p: Seq<int>| is_dep_path(g, p) && p.last() == i
}

/// The first occurrence of each value of `s`, in order of first
/// occurrence.
pub open spec fn first_occurrences(s: Seq<usize>) -> Seq<usize>
    decreases s.len(),
{
    if s.len() == 0 {
        Seq::empty()
    } else {
        let rest = first_occurrences(s.drop_last());
        if s.drop_last().contains(s.last()) {
            rest
        } else {
            rest.push(s.last())
        }
    }
}

/// `first_occurrences` keeps exactly the values of its input, each
/// once.
pub proof fn lemma_first_occurrences_props(s: Seq<usize>)
    ensures
        forall|x: usize| first_occurrences(s).contains(x) <==> s.contains(x),
        first_occurrences(s).no_duplicates(),
        first_occurrences(s).len() <= s.len(),
    decreases s.len(),
{
    if s.len() > 0 {
        let rest = s.drop_last();
        lemma_first_occurrences_props(rest);
        assert forall|x: usize| s.contains(x) implies rest.contains(x) || x == s.last() by {
            let idx = choose|idx: int| 0 <= idx < s.len() && s[idx] == x;
            if idx < s.len() - 1 {
                assert(rest[idx] == x);
            }
        }
        assert forall|x: usize| rest.contains(x) || x == s.last() implies s.contains(x) by {
            if rest.contains(x) {
                let idx = choose|idx: int| 0 <= idx < rest.len() && rest[idx] == x;
                assert(s[idx] == x);
            } else {
                assert(s[s.len() - 1] == x);
            }
        }
        if !rest.contains(s.last()) {
            let fr = first_occurrences(rest);
            let fo = first_occurrences(s);
            assert(fo == fr.push(s.last()));
            assert forall|x: usize| fo.contains(x) implies fr.contains(x) || x == s.last() by {
                let idx = choose|idx: int| 0 <= idx < fo.len() && fo[idx] == x;
                if idx < fo.len() - 1 {
                    assert(fr[idx] == x);
                }
            }
            assert forall|x: usize| fr.contains(x) || x == s.last() implies fo.contains(x) by {
                if fr.contains(x) {
                    let idx = choose|idx: int| 0 <= idx < fr.len() && fr[idx] == x;
                    assert(fo[idx] == x);
                } else {
                    assert(fo[fo.len() - 1] == x);
                }
            }
            assert(!fr.contains(s.last()));
            assert forall|i: int, j: int|
                0 <= i < fo.len() && 0 <= j < fo.len() && i != j implies fo[i] != fo[j] by {
                if i < fo.len() - 1 && j < fo.len() - 1 {
                    assert(fr[i] == fo[i] && fr[j] == fo[j]);
                } else if j == fo.len() - 1 && i < fo.len() - 1 {
                    assert(fr[i] == fo[i]);
                    assert(fr.contains(fo[i]));
                } else if i == fo.len() - 1 && j < fo.len() - 1 {
                    assert(fr[j] == fo[j]);
                    assert(fr.contains(fo[j]));
                }
            }
        }
    }
}

/// The dependencies of `inputs`, in declared order, that do not stand
/// among the already-seen entries.
pub open spec fn unseen_deps(inputs: Seq<usize>, seen: Seq<usize>) -> Seq<usize>
    decreases inputs.len(),
{
    if inputs.len() == 0 {
        Seq::empty()
    } else {
        let rest = unseen_deps(inputs.drop_first(), seen);
        if seen.contains(inputs[0]) {
            rest
        } else {
            seq![inputs[0]] + rest
        }
    }
}

/// Appends the entries of `ext` to `w`, in order, skipping any value
/// already present.
pub open spec fn append_unique(w: Seq<usize>, ext: Seq<usize>) -> Seq<usize>
    decreases ext.len(),
{
    if ext.len() == 0 {
        w
    } else {
        let w2 = if w.contains(ext[0]) {
            w
        } else {
            w.push(ext[0])
        };
        append_unique(w2, ext.drop_first())
    }
}

/// What position `p` of the working list contributes: a source
/// nothing, a filter its dependencies not yet seen at `p`.
pub open spec fn fresh_deps(g: Graph, w: Seq<usize>, p: int) -> Seq<usize> {
    if g.is_filter(w[p] as int) {
        unseen_deps(g.inputs_of(w[p] as int), w.take(p))
    } else {
        Seq::empty()
    }
}

/// Expands the working list from position `p` on: each position
/// appends its fresh dependencies, deduplicated, and expansion ends
/// when every position has been processed.
pub open spec fn expand_positions(g: Graph, w: Seq<usize>, p: int) -> Seq<usize>
    decreases g.nodes@.len() - p,
{
    if 0 <= p < w.len() && w.len() <= g.nodes@.len() {
        expand_positions(g, append_unique(w, fresh_deps(g, w, p)), p + 1)
    } else {
        w
    }
}

/// The working list the planner computes: the declared outputs' first
/// occurrences, expanded backward along dependency edges.
pub open spec fn planned_work(g: Graph) -> Seq<usize> {
    expand_positions(g, first_occurrences(g.outputs@), 0)
}

/// The processing queue the planner computes: the working list
/// reversed, its last `outputs_count` positions marked as outputs.
pub open spec fn planned_queue(g: Graph) -> Seq<QueueItem> {
    let w = planned_work(g);
    let oc = first_occurrences(g.outputs@).len() as int;
    Seq::new(
        w.len(),
        |t: int| QueueItem { node: w[w.len() - 1 - t], is_output: t >= w.len() - oc },
    )
}

/// `append_unique` preserves bounds and distinctness and extends its
/// input in place.
proof fn lemma_append_unique_props(w: Seq<usize>, ext: Seq<usize>, n: int)
    requires
        entries_below(w, n),
        entries_distinct(w),
        entries_below(ext, n),
    ensures
        entries_below(append_unique(w, ext), n),
        entries_distinct(append_unique(w, ext)),
        w.len() <= append_unique(w, ext).len(),
        forall|i: int| 0 <= i < w.len() ==> #[trigger] append_unique(w, ext)[i] == w[i],
    decreases ext.len(),
{
    if ext.len() > 0 {
        let d = ext[0];
        assert forall|i: int| 0 <= i < ext.drop_first().len() implies (#[trigger] ext.drop_first()[i])
            < n by {
            assert(ext.drop_first()[i] == ext[i + 1]);
        }
        if w.contains(d) {
            lemma_append_unique_props(w, ext.drop_first(), n);
        } else {
            let w2 = w.push(d);
            assert(entries_distinct(w2)) by {
                assert forall|p1: int, p2: int|
                    0 <= p1 < p2 < w2.len() implies (#[trigger] w2[p1]) != (#[trigger] w2[p2]) by {
                    if p2 == w2.len() - 1 {
                        assert(w2[p1] == w[p1]);
                        if w[p1] == d {
                            assert(w.contains(d));
                        }
                    }
                }
            }
            lemma_append_unique_props(w2, ext.drop_first(), n);
            assert forall|i: int| 0 <= i < w.len() implies #[trigger] append_unique(w, ext)[i]
                == w[i] by {
                assert(append_unique(w2, ext.drop_first())[i] == w2[i]);
                assert(w2[i] == w[i]);
            }
        }
    }
}

/// Appending two buffers one after the other appends their
/// concatenation.
proof fn lemma_append_unique_assoc(w: Seq<usize>, e1: Seq<usize>, e2: Seq<usize>)
    ensures
        append_unique(w, e1 + e2) == append_unique(append_unique(w, e1), e2),
    decreases e1.len(),
{
    if e1.len() == 0 {
        assert(e1 + e2 =~= e2);
        assert(append_unique(w, e1) == w);
    } else {
        assert((e1 + e2)[0] == e1[0]);
        assert((e1 + e2).len() > 0);
        assert((e1 + e2).drop_first() =~= e1.drop_first() + e2);
        let w2 = if w.contains(e1[0]) {
            w
        } else {
            w.push(e1[0])
        };
        lemma_append_unique_assoc(w2, e1.drop_first(), e2);
    }
}

/// The queue holds each node at most once, every entry in the arena's
/// bounds.
pub open spec fn queue_wf(g: Graph, q: Seq<QueueItem>) -> bool {
    &&& forall|t: int| 0 <= t < q.len() ==> (#[trigger] q[t]).node < g.nodes@.len()
    &&& forall|t1: int, t2: int|
        0 <= t1 < t2 < q.len() ==> (#[trigger] q[t1]).node != (#[trigger] q[t2]).node
}

/// Every declared dependency of a queued filter is itself queued.
pub open spec fn queue_closed(g: Graph, q: Seq<QueueItem>) -> bool {
    forall|t: int, d: int|
        0 <= t < q.len() && #[trigger] g.edge((#[trigger] q[t]).node as int, d) ==> in_queue(q, d)
}

/// The first occurrences of the declared outputs stand reversed at the
/// tail of the queue.
pub open spec fn queue_seeds_at_tail(q: Seq<QueueItem>, seeds: Seq<usize>) -> bool {
    &&& q.len() >= seeds.len()
    &&& forall|k: int| 0 <= k < seeds.len() ==> (#[trigger] q[q.len() - 1 - k]).node == seeds[k]
}

/// Exactly the last `oc` queue entries carry the output mark.
pub open spec fn queue_outputs_marked(q: Seq<QueueItem>, oc: int) -> bool {
    forall|t: int| 0 <= t < q.len() ==> ((#[trigger] q[t]).is_output <==> t >= q.len() - oc)
}

/// Some entry strictly later in the queue lists entry `t`'s node as a
/// dependency.
pub open spec fn has_later_referrer(g: Graph, q: Seq<QueueItem>, t: int) -> bool {
    exists|t2: int|
        t < t2 < q.len() && g.edge((#[trigger] q[t2]).node as int, q[t].node as int)
}

/// Every queue entry before the output tail was introduced as a
/// dependency of some entry standing strictly later in the queue.
pub open spec fn queue_supported(g: Graph, q: Seq<QueueItem>, oc: int) -> bool {
    forall|t: int| 0 <= t < q.len() - oc ==> #[trigger] has_later_referrer(g, q, t)
}

/// The planner's structural guarantees beyond well-formedness and
/// closure.
pub open spec fn planner_queue_shape(g: Graph, q: Seq<QueueItem>) -> bool {
    &&& queue_seeds_at_tail(q, first_occurrences(g.outputs@))
    &&& queue_outputs_marked(q, first_occurrences(g.outputs@).len() as int)
    &&& queue_supported(g, q, first_occurrences(g.outputs@).len() as int)
}

/// A sequence of distinct values below `n` has at most `n` entries.
proof fn lemma_distinct_bounded_len(w: Seq<usize>, n: nat)
    requires
        entries_below(w, n as int),
        entries_distinct(w),
    ensures
        w.len() <= n,
{
    let wi = w.map_values(|x: usize| x as int);
    assert(wi.no_duplicates());
    wi.unique_seq_to_set();
    assert(wi.to_set().subset_of(set_int_range(0, n as int))) by {
        assert forall|x: int| wi.to_set().contains(x) implies 0 <= x < n by {
            let idx = choose|idx: int| 0 <= idx < wi.len() && wi[idx] == x;
            assert(w[idx] < n);
        }
    }
    lemma_int_range(0, n as int);
    lemma_len_subset(wi.to_set(), set_int_range(0, n as int));
}

/// In a working list that holds every output and every dependency of
/// its own entries, every reachable node stands somewhere.
proof fn lemma_closed_holds_path_end(g: Graph, w: Seq<usize>, p: Seq<int>)
    requires
        is_dep_path(g, p),
        forall|x: int| g.is_output_node(x) ==> seq_has(w, x),
        deps_listed_upto(g, w, w.len() as int),
    ensures
        seq_has(w, p.last()),
    decreases p.len(),
{
    if p.len() == 1 {
        assert(g.is_output_node(p[0]));
    } else {
        let front = p.drop_last();
        assert(is_dep_path(g, front));
        lemma_closed_holds_path_end(g, w, front);
        let q = choose|q: int| 0 <= q < w.len() && w[q] == front.last();
        assert(g.edge(p[p.len() - 2], p[p.len() - 1]));
        assert(g.edge(w[q] as int, p.last()));
    }
}

/// A vector of `n` cleared marks.
fn make_marks(n: usize) -> (r: Vec<bool>)
    ensures
        r@.len() == n,
        forall|i: int| 0 <= i < n ==> !(#[trigger] r@[i]),
{
    let mut r: Vec<bool> = Vec::new();
    while r.len() < n
        invariant
            r@.len() <= n,
            forall|i: int| 0 <= i < r@.len() ==> !(#[trigger] r@[i]),
        decreases n - r@.len(),
    {
        r.push(false);
    }
    r
}

/// Seeds the working list with the declared outputs, in the order
/// given, keeping the first occurrence of each.  The second vector
/// marks membership in the first.
#[verifier::loop_isolation(false)]
fn seed_outputs(g: &Graph, n: usize) -> (r: (Vec<usize>, Vec<bool>))
    requires
        g.wf(),
        n == g.nodes@.len(),
    ensures
        r.0@ == first_occurrences(g.outputs@),
        r.0@.len() > 0,
        r.1@.len() == n,
        marks_prefix(r.1@, r.0@, r.0@.len() as int),
        entries_below(r.0@, n as int),
        entries_distinct(r.0@),
        entries_reachable(*g, r.0@),
{
    let ghost fo = first_occurrences(g.outputs@);
    proof {
        lemma_first_occurrences_props(g.outputs@);
    }
    let mut work: Vec<usize> = Vec::new();
    let mut in_work = make_marks(n);
    let mut k: usize = 0;
    while k < g.outputs.len()
        invariant
            k <= g.outputs@.len(),
            in_work@.len() == n,
            work@ == first_occurrences(g.outputs@.take(k as int)),
            entries_below(work@, n as int),
            marks_prefix(in_work@, work@, work@.len() as int),
        decreases g.outputs@.len() - k,
    {
        let o = g.outputs[k];
        proof {
            lemma_first_occurrences_props(g.outputs@.take(k as int));
            assert(g.outputs@.take(k + 1).drop_last() =~= g.outputs@.take(k as int));
            assert(g.outputs@.take(k + 1).last() == o);
        }
        if !in_work[o] {
            let ghost work0 = work@;
            let ghost in_work0 = in_work@;
            work.push(o);
            in_work[o] = true;
            proof {
                assert(marks_prefix(in_work@, work@, work@.len() as int)) by {
                    assert forall|x: int|
                        0 <= x < n implies ((#[trigger] in_work@[x]) <==> exists|p: int|
                        0 <= p < work@.len() && p < work@.len() && work@[p] == x) by {
                        if x == o {
                            assert(work@[work@.len() - 1] == o);
                            assert(in_work@[x]);
                        } else {
                            assert(in_work@[x] == in_work0[x]);
                            if in_work0[x] {
                                let pp = choose|pp: int|
                                    0 <= pp < work0.len() && pp < work0.len() && work0[pp] == x;
                                assert(work@[pp] == x);
                            } else {
                                assert forall|p2: int|
                                    0 <= p2 < work@.len() implies work@[p2] != x by {
                                    if p2 < work0.len() {
                                        assert(work@[p2] == work0[p2]);
                                    } else {
                                        assert(work@[p2] == o);
                                    }
                                }
                            }
                        }
                    }
                }
            }
        }
        k += 1;
    }
    proof {
        assert(g.outputs@.take(g.outputs@.len() as int) =~= g.outputs@);
        assert(work@ == fo);
        assert(g.outputs@.contains(g.outputs@[0]));
        assert(fo.contains(g.outputs@[0]));
        assert(work@.len() > 0);
        assert forall|p1: int, p2: int| 0 <= p1 < p2 < work@.len() implies (#[trigger] work@[p1])
            != (#[trigger] work@[p2]) by {
            assert(fo.no_duplicates());
        }
        assert forall|p: int| 0 <= p < work@.len() implies reachable(
            *g,
            (#[trigger] work@[p]) as int,
        ) by {
            assert(fo[p] == work@[p]);
            assert(fo.contains(work@[p]));
            assert(g.outputs@.contains(work@[p]));
            let kk = choose|kk: int| 0 <= kk < g.outputs@.len() && g.outputs@[kk] == work@[p];
            let pth = seq![work@[p] as int];
            assert(g.is_output_node(work@[p] as int));
            assert(is_dep_path(*g, pth));
            assert(pth.last() == work@[p] as int);
        }
    }
    (work, in_work)
}

/// From the finished working list — closed under dependencies, seeded
/// with the outputs, each entry reachable and witnessed — the reversed
/// queue inherits every guarantee the planner states.
#[verifier::rlimit(60)]
proof fn lemma_assemble_queue(g: Graph, w: Seq<usize>, ws: Seq<int>, q: Seq<QueueItem>, oc: int)
    requires
        g.wf(),
        oc == first_occurrences(g.outputs@).len(),
        oc <= w.len(),
        w.subrange(0, oc) == first_occurrences(g.outputs@),
        entries_below(w, g.nodes@.len() as int),
        entries_distinct(w),
        entries_reachable(g, w),
        entries_witnessed(g, w, ws, oc),
        deps_listed_upto(g, w, w.len() as int),
        q.len() == w.len(),
        forall|t: int| 0 <= t < q.len() ==> (#[trigger] q[t]).node == w[q.len() - 1 - t],
        forall|t: int| 0 <= t < q.len() ==> ((#[trigger] q[t]).is_output <==> t >= q.len() - oc),
    ensures
        queue_wf(g, q),
        queue_closed(g, q),
        forall|t: int| 0 <= t < q.len() ==> reachable(g, (#[trigger] q[t]).node as int),
        forall|i: int| reachable(g, i) ==> in_queue(q, i),
        planner_queue_shape(g, q),
{
    let len = q.len() as int;
    let fo = first_occurrences(g.outputs@);
    assert forall|t1: int, t2: int|
        0 <= t1 < t2 < len implies (#[trigger] q[t1]).node != (#[trigger] q[t2]).node by {
        assert(q[t1].node == w[len - 1 - t1]);
        assert(q[t2].node == w[len - 1 - t2]);
        assert(w[len - 1 - t2] != w[len - 1 - t1]);
    }
    assert forall|t2: int, d: int|
        0 <= t2 < len && #[trigger] g.edge((#[trigger] q[t2]).node as int, d) implies in_queue(
        q,
        d,
    ) by {
        assert(q[t2].node == w[len - 1 - t2]);
        assert(seq_has(w, d));
        let pd = choose|pd: int| 0 <= pd < w.len() && w[pd] == d;
        assert(q[len - 1 - pd].node == w[pd]);
    }
    assert forall|i: int| reachable(g, i) implies in_queue(q, i) by {
        let pth = choose|pth: Seq<int>| is_dep_path(g, pth) && pth.last() == i;
        assert forall|x: int| g.is_output_node(x) implies seq_has(w, x) by {
            let kk = choose|kk: int| 0 <= kk < g.outputs@.len() && g.outputs@[kk] == x;
            assert(g.outputs@.contains(g.outputs@[kk]));
            lemma_first_occurrences_props(g.outputs@);
            assert(fo.contains(g.outputs@[kk]));
            let pf = choose|pf: int| 0 <= pf < fo.len() && fo[pf] == g.outputs@[kk];
            assert(w.subrange(0, oc)[pf] == fo[pf]);
            assert(w[pf] == g.outputs@[kk]);
        }
        lemma_closed_holds_path_end(g, w, pth);
        let pd = choose|pd: int| 0 <= pd < w.len() && w[pd] == i;
        assert(q[len - 1 - pd].node == w[pd]);
    }
    assert(queue_seeds_at_tail(q, fo)) by {
        assert forall|k2: int| 0 <= k2 < fo.len() implies (#[trigger] q[q.len() - 1 - k2]).node
            == fo[k2] by {
            assert(q[len - 1 - k2].node == w[len - 1 - (len - 1 - k2)]);
            assert(w.subrange(0, oc)[k2] == fo[k2]);
        }
    }
    assert(queue_outputs_marked(q, oc));
    assert(queue_supported(g, q, oc)) by {
        assert forall|t2: int| 0 <= t2 < q.len() - oc implies #[trigger] has_later_referrer(
            g,
            q,
            t2,
        ) by {
            let pw = len - 1 - t2;
            assert(oc <= pw < w.len());
            assert(0 <= ws[pw] < pw && g.edge(w[ws[pw]] as int, w[pw] as int));
            let t3 = len - 1 - ws[pw];
            assert(q[t3].node == w[ws[pw]]);
            assert(q[t2].node == w[pw]);
            assert(t2 < t3 < q.len());
            assert(g.edge(q[t3].node as int, q[t2].node as int));
        }
    }
}

/// Expands the declared outputs backward along dependency edges into a
/// single linear processing order: one entry per distinct reachable
/// node, with every entry before the output tail introduced as a
/// dependency of some later entry.
///
/// The queue is pinned to [`planned_queue`], a function of the
/// registry alone: identical configurations yield identical queues,
/// their order depending only on the declared output order and each
/// filter's declared input order.
///
/// Cycles are not rejected here — a self-referential filter simply
/// stands in the queue; only resolution detects that it can never be
/// resolved.
#[verifier::loop_isolation(false)]
#[verifier::rlimit(60)]
pub fn compute_process_queue(g: &Graph) -> (q: Vec<QueueItem>)
    requires
        g.wf(),
    ensures
        queue_wf(*g, q@),
        queue_closed(*g, q@),
        forall|t: int| 0 <= t < q@.len() ==> reachable(*g, (#[trigger] q@[t]).node as int),
        forall|i: int| reachable(*g, i) ==> in_queue(q@, i),
        planner_queue_shape(*g, q@),
        q@ == planned_queue(*g),
        q@.len() > 0,
{
    let n = g.nodes.len();
    let ghost fo = first_occurrences(g.outputs@);
    let (mut work, mut in_work) = seed_outputs(g, n);
    let oc = work.len();
    let ghost mut ws = Seq::<int>::new(oc as nat, |i: int| 0);
    let mut seen = make_marks(n);
    let mut skip: usize = 0;
    let mut done = false;
    proof {
        lemma_distinct_bounded_len(work@, n as nat);
        assert(work@.subrange(0, oc as int) =~= fo);
        assert(expand_positions(*g, work@, 0) == planned_work(*g));
    }
    while !done
        invariant
            in_work@.len() == n,
            seen@.len() == n,
            oc == fo.len(),
            oc <= work@.len(),
            work@.len() <= n,
            work@.subrange(0, oc as int) == fo,
            entries_below(work@, n as int),
            entries_distinct(work@),
            marks_prefix(in_work@, work@, work@.len() as int),
            marks_prefix(seen@, work@, skip as int),
            skip <= work@.len(),
            !done ==> skip < work@.len(),
            done ==> skip == work@.len(),
            entries_reachable(*g, work@),
            entries_witnessed(*g, work@, ws, oc as int),
            deps_listed_upto(*g, work@, skip as int),
            expand_positions(*g, work@, skip as int) == planned_work(*g),
        decreases n - skip,
    {
        // One pass over the unseen suffix: mark each entry seen; a
        // filter contributes its not-yet-seen dependencies.
        let mut ext: Vec<usize> = Vec::new();
        let ghost mut ext_src = Seq::<int>::empty();
        let mut p = skip;
        proof {
            assert(append_unique(work@, ext@) == work@);
        }
        while p < work.len()
            invariant
                skip <= p <= work@.len(),
                seen@.len() == n,
                marks_prefix(seen@, work@, p as int),
                entries_below(ext@, n as int),
                ext_witnessed(*g, work@, ext@, ext_src, p as int),
                deps_covered(*g, work@, skip as int, p as int, ext@),
                expand_positions(*g, append_unique(work@, ext@), p as int) == planned_work(*g),
            decreases work@.len() - p,
        {
            let i = work[p];
            let node = &g.nodes[i];
            let ghost pass_ext0 = ext@;
            let ghost snap = work@.take(p as int);
            let ghost bigw = append_unique(work@, pass_ext0);
            match &node.kind {
                NodeKind::Source { .. } => {
                    assert(!g.is_filter(i as int));
                    proof {
                        assert(ext@ == pass_ext0);
                        assert(ext@.skip(pass_ext0.len() as int) =~= Seq::<usize>::empty());
                        lemma_append_unique_props(work@, pass_ext0, n as int);
                        lemma_distinct_bounded_len(bigw, n as nat);
                        assert(0 <= p < bigw.len() && bigw.len() <= g.nodes@.len());
                        assert(bigw[p as int] == work@[p as int]);
                        assert(!g.is_filter(bigw[p as int] as int));
                        assert(fresh_deps(*g, bigw, p as int) == Seq::<usize>::empty());
                        assert(append_unique(bigw, Seq::<usize>::empty()) == bigw);
                        assert(expand_positions(*g, bigw, p as int) == expand_positions(
                            *g,
                            bigw,
                            p + 1,
                        ));
                        assert(append_unique(work@, ext@) == bigw);
                        assert(expand_positions(*g, append_unique(work@, ext@), p + 1)
                            == planned_work(*g));
                    }
                },
                NodeKind::Filter { inputs, .. } => {
                    assert(inputs@ == g.inputs_of(i as int));
                    assert(g.is_filter(i as int));
                    let m = inputs.len();
                    let mut j: usize = 0;
                    proof {
                        assert(inputs@.skip(0) =~= inputs@);
                        assert(ext@.skip(pass_ext0.len() as int) =~= Seq::<usize>::empty());
                        assert(Seq::<usize>::empty() + unseen_deps(inputs@, snap) =~= unseen_deps(
                            inputs@,
                            snap,
                        ));
                        assert(ext@.take(pass_ext0.len() as int) =~= pass_ext0);
                    }
                    while j < m
                        invariant
                            j <= m,
                            m == g.inputs_of(i as int).len(),
                            inputs@ == g.inputs_of(i as int),
                            p < work@.len(),
                            work@[p as int] == i,
                            seen@.len() == n,
                            marks_prefix(seen@, work@, p as int),
                            entries_below(ext@, n as int),
                            ext_witnessed(*g, work@, ext@, ext_src, p + 1),
                            deps_covered(*g, work@, skip as int, p as int, ext@),
                            ext@.len() >= pass_ext0.len(),
                            ext@.take(pass_ext0.len() as int) == pass_ext0,
                            snap == work@.take(p as int),
                            unseen_deps(inputs@, snap) == ext@.skip(pass_ext0.len() as int)
                                + unseen_deps(inputs@.skip(j as int), snap),
                            forall|j2: int|
                                0 <= j2 < j ==> seq_has(work@, (#[trigger] inputs@[j2]) as int)
                                    || seq_has(ext@, inputs@[j2] as int),
                        decreases m - j,
                    {
                        let d = inputs[j];
                        assert(d < n);
                        proof {
                            assert(inputs@.skip(j as int)[0] == d);
                            assert(inputs@.skip(j as int).drop_first() =~= inputs@.skip(j + 1));
                        }
                        if !seen[d] {
                            let ghost ext0 = ext@;
                            ext.push(d);
                            proof {
                                ext_src = ext_src.push(p as int);
                                assert(g.edge(i as int, d as int));
                                assert(work@[p as int] == i);
                                assert(ext@[ext@.len() - 1] == d);
                                assert forall|x: int| seq_has(ext0, x) implies seq_has(
                                    ext@,
                                    x,
                                ) by {
                                    let pe = choose|pe: int| 0 <= pe < ext0.len() && ext0[pe] == x;
                                    assert(ext@[pe] == x);
                                }
                                assert(!snap.contains(d)) by {
                                    if snap.contains(d) {
                                        let idx = choose|idx: int|
                                            0 <= idx < snap.len() && snap[idx] == d;
                                        assert(work@[idx] == d);
                                    }
                                }
                                assert(unseen_deps(inputs@.skip(j as int), snap) == seq![d]
                                    + unseen_deps(inputs@.skip(j + 1), snap));
                                assert(ext@.take(pass_ext0.len() as int) =~= pass_ext0);
                                assert(ext@.skip(pass_ext0.len() as int) =~= ext0.skip(
                                    pass_ext0.len() as int,
                                ) + seq![d]);
                                assert((ext0.skip(pass_ext0.len() as int) + seq![d])
                                    + unseen_deps(inputs@.skip(j + 1), snap) =~= ext0.skip(
                                    pass_ext0.len() as int,
                                ) + (seq![d] + unseen_deps(inputs@.skip(j + 1), snap)));
                            }
                        } else {
                            proof {
                                let pd = choose|pd: int|
                                    0 <= pd < p && pd < work@.len() && work@[pd] == d;
                                assert(work@[pd] == d);
                                assert(snap.contains(d)) by {
                                    assert(snap[pd] == d);
                                }
                                assert(unseen_deps(inputs@.skip(j as int), snap) == unseen_deps(
                                    inputs@.skip(j + 1),
                                    snap,
                                ));
                            }
                        }
                        j += 1;
                    }
                    proof {
                        assert(inputs@.skip(m as int) =~= Seq::<usize>::empty());
                        assert(unseen_deps(Seq::<usize>::empty(), snap)
                            == Seq::<usize>::empty());
                        assert(unseen_deps(inputs@, snap) == ext@.skip(pass_ext0.len() as int)
                            + Seq::<usize>::empty());
                        assert(unseen_deps(inputs@, snap) =~= ext@.skip(pass_ext0.len() as int));
                        lemma_append_unique_props(work@, pass_ext0, n as int);
                        lemma_distinct_bounded_len(bigw, n as nat);
                        assert(0 <= p < bigw.len() && bigw.len() <= g.nodes@.len());
                        assert(bigw[p as int] == work@[p as int]);
                        assert(bigw.take(p as int) =~= snap);
                        assert(g.is_filter(bigw[p as int] as int));
                        assert(fresh_deps(*g, bigw, p as int) == unseen_deps(
                            g.inputs_of(i as int),
                            snap,
                        ));
                        assert(fresh_deps(*g, bigw, p as int) == ext@.skip(
                            pass_ext0.len() as int,
                        ));
                        assert(expand_positions(*g, bigw, p as int) == expand_positions(
                            *g,
                            append_unique(bigw, fresh_deps(*g, bigw, p as int)),
                            p + 1,
                        ));
                        lemma_append_unique_assoc(
                            work@,
                            pass_ext0,
                            ext@.skip(pass_ext0.len() as int),
                        );
                        assert(ext@.take(pass_ext0.len() as int) + ext@.skip(
                            pass_ext0.len() as int,
                        ) =~= ext@);
                        assert(pass_ext0 + ext@.skip(pass_ext0.len() as int) == ext@);
                        assert(append_unique(bigw, fresh_deps(*g, bigw, p as int))
                            == append_unique(work@, ext@));
                        assert(expand_positions(*g, append_unique(work@, ext@), p + 1)
                            == planned_work(*g));
                    }
                },
            }
            proof {
                assert(deps_covered(*g, work@, skip as int, p + 1, ext@)) by {
                    assert forall|p2: int, d: int|
                        skip <= p2 < p + 1 && p2 < work@.len() && #[trigger] g.edge(
                            (#[trigger] work@[p2]) as int,
                            d,
                        ) implies seq_has(work@, d) || seq_has(ext@, d) by {
                        if p2 == p {
                            let jw = choose|jw: int|
                                0 <= jw < g.inputs_of(i as int).len() && g.inputs_of(i as int)[jw]
                                    == d;
                            assert(seq_has(work@, g.inputs_of(i as int)[jw] as int) || seq_has(
                                ext@,
                                g.inputs_of(i as int)[jw] as int,
                            ));
                        }
                    }
                }
            }
            seen[i] = true;
            proof {
                assert(marks_prefix(seen@, work@, p + 1)) by {
                    assert forall|x: int|
                        0 <= x < n implies ((#[trigger] seen@[x]) <==> exists|p2: int|
                        0 <= p2 < p + 1 && p2 < work@.len() && work@[p2] == x) by {
                        if x == i {
                            assert(work@[p as int] == i);
                        }
                    }
                }
            }
            p += 1;
        }
        // Append the names the pass contributed, deduplicated against
        // everything already in the working list.
        let old_len = work.len();
        let mut appended = false;
        let mut e: usize = 0;
        proof {
            assert(ext@.skip(0) =~= ext@);
            assert(deps_covered(*g, work@, 0, old_len as int, ext@.skip(0))) by {
                assert forall|p2: int, dd: int|
                    0 <= p2 < old_len && p2 < work@.len() && #[trigger] g.edge(
                        (#[trigger] work@[p2]) as int,
                        dd,
                    ) implies seq_has(work@, dd) || seq_has(ext@.skip(0), dd) by {
                    if p2 < skip {
                        assert(seq_has(work@, dd));
                    } else {
                        assert(seq_has(work@, dd) || seq_has(ext@, dd));
                    }
                }
            }
            assert(p == old_len);
            assert(append_unique(work@, ext@.skip(0)) == append_unique(work@, ext@));
            assert(expand_positions(*g, append_unique(work@, ext@.skip(0)), old_len as int)
                == planned_work(*g));
        }
        while e < ext.len()
            invariant
                e <= ext@.len(),
                old_len <= work@.len(),
                work@.len() <= n,
                in_work@.len() == n,
                seen@.len() == n,
                oc <= old_len,
                work@.subrange(0, oc as int) == fo,
                entries_below(work@, n as int),
                entries_distinct(work@),
                marks_prefix(in_work@, work@, work@.len() as int),
                marks_prefix(seen@, work@, old_len as int),
                entries_reachable(*g, work@),
                entries_witnessed(*g, work@, ws, oc as int),
                entries_below(ext@, n as int),
                ext_witnessed(*g, work@, ext@, ext_src, old_len as int),
                deps_covered(*g, work@, 0, old_len as int, ext@.skip(e as int)),
                expand_positions(*g, append_unique(work@, ext@.skip(e as int)), old_len as int)
                    == planned_work(*g),
                appended <==> work@.len() > old_len,
            decreases ext@.len() - e,
        {
            let d = ext[e];
            let ghost work0 = work@;
            let ghost in_work0 = in_work@;
            let ghost ext_rest0 = ext@.skip(e as int);
            if !in_work[d] {
                proof {
                    assert(!seq_has(work@, d as int));
                    let p2 = ext_src[e as int];
                    assert(0 <= p2 < old_len && g.edge(work@[p2] as int, (ext@[e as int]) as int));
                    assert(reachable(*g, work@[p2] as int));
                    let pth = choose|pth: Seq<int>|
                        is_dep_path(*g, pth) && pth.last() == work@[p2] as int;
                    let extended = pth.push(d as int);
                    assert(is_dep_path(*g, extended)) by {
                        assert forall|t: int|
                            0 <= t < extended.len() - 1 implies g.edge(
                            #[trigger] extended[t],
                            extended[t + 1],
                        ) by {
                            if t < pth.len() - 1 {
                                assert(extended[t] == pth[t] && extended[t + 1] == pth[t + 1]);
                            } else {
                                assert(extended[t] == pth.last() && extended[t + 1] == d as int);
                            }
                        }
                    }
                    assert(extended.last() == d as int);
                    assert(reachable(*g, d as int));
                }
                work.push(d);
                in_work[d] = true;
                appended = true;
                proof {
                    ws = ws.push(ext_src[e as int]);
                    assert(work@ == work0.push(d));
                    assert(work@.subrange(0, oc as int) =~= fo);
                    assert(ext_rest0[0] == d);
                    assert(ext_rest0.drop_first() =~= ext@.skip(e + 1));
                    assert(!work0.contains(d)) by {
                        if work0.contains(d) {
                            let pw = choose|pw: int|
                                0 <= pw < work0.len() && work0[pw] == d;
                            assert(seq_has(work0, d as int));
                        }
                    }
                    assert(append_unique(work0, ext_rest0) == append_unique(
                        work0.push(d),
                        ext_rest0.drop_first(),
                    ));
                    assert(append_unique(work@, ext@.skip(e + 1)) == append_unique(
                        work0,
                        ext_rest0,
                    ));
                    assert(expand_positions(
                        *g,
                        append_unique(work@, ext@.skip(e + 1)),
                        old_len as int,
                    ) == planned_work(*g));
                    assert(entries_distinct(work@)) by {
                        assert forall|p1: int, p2: int|
                            0 <= p1 < p2 < work@.len() implies (#[trigger] work@[p1])
                            != (#[trigger] work@[p2]) by {
                            if p2 == work@.len() - 1 {
                                assert(work@[p2] == d);
                                assert(work@[p1] == work0[p1]);
                                if work0[p1] == d {
                                    assert(seq_has(work0, d as int));
                                }
                            }
                        }
                    }
                    lemma_distinct_bounded_len(work@, n as nat);
                    assert(entries_witnessed(*g, work@, ws, oc as int)) by {
                        assert forall|p: int|
                            oc <= p < work@.len() implies 0 <= (#[trigger] ws[p]) < p && g.edge(
                            work@[ws[p]] as int,
                            work@[p] as int,
                        ) by {
                            if p < work0.len() {
                                assert(work@[p] == work0[p]);
                                assert(work@[ws[p]] == work0[ws[p]]);
                            } else {
                                assert(work@[p] == d);
                                assert(ws[p] == ext_src[e as int]);
                                assert(work@[ws[p]] == work0[ws[p]]);
                                assert(g.edge(work0[ext_src[e as int]] as int, d as int));
                            }
                        }
                    }
                    assert(ext_witnessed(*g, work@, ext@, ext_src, old_len as int)) by {
                        assert forall|e2: int|
                            0 <= e2 < ext@.len() implies 0 <= (#[trigger] ext_src[e2]) < old_len
                            && ext_src[e2] < work@.len() && g.edge(
                            work@[ext_src[e2]] as int,
                            ext@[e2] as int,
                        ) by {
                            assert(work@[ext_src[e2]] == work0[ext_src[e2]]);
                        }
                    }
                    assert(marks_prefix(in_work@, work@, work@.len() as int)) by {
                        assert forall|x: int|
                            0 <= x < n implies ((#[trigger] in_work@[x]) <==> exists|p2: int|
                            0 <= p2 < work@.len() && p2 < work@.len() && work@[p2] == x) by {
                            if x == d {
                                assert(work@[work@.len() - 1] == d);
                                assert(in_work@[x]);
                            } else {
                                assert(in_work@[x] == in_work0[x]);
                                if in_work0[x] {
                                    let pp = choose|pp: int|
                                        0 <= pp < work0.len() && pp < work0.len() && work0[pp]
                                            == x;
                                    assert(work@[pp] == x);
                                } else {
                                    assert forall|p2: int|
                                        0 <= p2 < work@.len() implies work@[p2] != x by {
                                        if p2 < work0.len() {
                                            assert(work@[p2] == work0[p2]);
                                        } else {
                                            assert(work@[p2] == d);
                                        }
                                    }
                                }
                            }
                        }
                    }
                    assert(marks_prefix(seen@, work@, old_len as int)) by {
                        assert forall|x: int|
                            0 <= x < n implies ((#[trigger] seen@[x]) <==> exists|p2: int|
                            0 <= p2 < old_len && p2 < work@.len() && work@[p2] == x) by {
                            if seen@[x] {
                                let pp = choose|pp: int|
                                    0 <= pp < old_len && pp < work0.len() && work0[pp] == x;
                                assert(work@[pp] == x);
                            } else {
                                assert forall|p2: int|
                                    0 <= p2 < old_len && p2 < work@.len() implies work@[p2]
                                    != x by {
                                    assert(work@[p2] == work0[p2]);
                                }
                            }
                        }
                    }
                    assert(entries_reachable(*g, work@)) by {
                        assert forall|p: int| 0 <= p < work@.len() implies reachable(
                            *g,
                            (#[trigger] work@[p]) as int,
                        ) by {
                            if p < work0.len() {
                                assert(work@[p] == work0[p]);
                            } else {
                                assert(work@[p] == d);
                            }
                        }
                    }
                }
            } else {
                proof {
                    assert(seq_has(work@, d as int));
                    assert(ext_rest0[0] == d);
                    assert(ext_rest0.drop_first() =~= ext@.skip(e + 1));
                    assert(work@.contains(d)) by {
                        let pw = choose|pw: int|
                            0 <= pw < work@.len() && (#[trigger] work@[pw]) == d as int;
                        assert(work@[pw] == d);
                    }
                    assert(append_unique(work@, ext_rest0) == append_unique(
                        work@,
                        ext_rest0.drop_first(),
                    ));
                    assert(expand_positions(
                        *g,
                        append_unique(work@, ext@.skip(e + 1)),
                        old_len as int,
                    ) == planned_work(*g));
                }
            }
            proof {
                assert(deps_covered(*g, work@, 0, old_len as int, ext@.skip(e + 1))) by {
                    assert(seq_has(work@, d as int));
                    assert forall|p2: int, dd: int|
                        0 <= p2 < old_len && p2 < work@.len() && #[trigger] g.edge(
                            (#[trigger] work@[p2]) as int,
                            dd,
                        ) implies seq_has(work@, dd) || seq_has(ext@.skip(e + 1), dd) by {
                        assert(work@[p2] == work0[p2]);
                        assert(g.edge(work0[p2] as int, dd));
                        assert(seq_has(work0, dd) || seq_has(ext_rest0, dd));
                        if seq_has(work0, dd) {
                            let pp = choose|pp: int| 0 <= pp < work0.len() && work0[pp] == dd;
                            assert(work@[pp] == dd);
                        } else {
                            let pe = choose|pe: int|
                                0 <= pe < ext_rest0.len() && (#[trigger] ext_rest0[pe]) == dd;
                            if pe == 0 {
                                assert(ext_rest0[0] == d);
                                assert(seq_has(work@, dd));
                            } else {
                                assert(ext@.skip(e + 1)[pe - 1] == ext_rest0[pe]);
                            }
                        }
                    }
                }
            }
            e += 1;
        }
        proof {
            assert(deps_listed_upto(*g, work@, old_len as int)) by {
                assert(ext@.skip(ext@.len() as int) =~= Seq::<usize>::empty());
                assert forall|p2: int, dd: int|
                    0 <= p2 < old_len && p2 < work@.len() && #[trigger] g.edge(
                        (#[trigger] work@[p2]) as int,
                        dd,
                    ) implies seq_has(work@, dd) by {
                    assert(seq_has(work@, dd) || seq_has(ext@.skip(ext@.len() as int), dd));
                    if seq_has(ext@.skip(ext@.len() as int), dd) {
                        assert(false);
                    }
                }
            }
        }
        skip = old_len;
        if !appended {
            done = true;
        }
    }
    proof {
        assert(expand_positions(*g, work@, skip as int) == work@);
        assert(work@ == planned_work(*g));
    }
    // Later-introduced entries are the first resolvable ones: reverse,
    // and mark the last `outputs_count` positions as outputs.
    let len = work.len();
    let mut q: Vec<QueueItem> = Vec::new();
    let mut t: usize = 0;
    while t < len
        invariant
            t <= len,
            q@.len() == t,
            forall|t2: int| 0 <= t2 < t ==> (#[trigger] q@[t2]).node == work@[len - 1 - t2],
            forall|t2: int| 0 <= t2 < t ==> ((#[trigger] q@[t2]).is_output <==> t2 >= len - oc),
        decreases len - t,
    {
        let node_index = work[len - 1 - t];
        q.push(QueueItem { node: node_index, is_output: t >= len - oc });
        t += 1;
    }
    proof {
        lemma_assemble_queue(*g, work@, ws, q@, oc as int);
        assert(q@ =~= planned_queue(*g)) by {
            assert(planned_work(*g) == work@);
            assert(planned_queue(*g).len() == work@.len());
            assert forall|t: int| 0 <= t < q@.len() implies q@[t] == planned_queue(*g)[t] by {
                assert(q@[t].node == work@[len - 1 - t]);
                assert(q@[t].is_output == (t >= len - oc));
                assert(planned_queue(*g)[t].node == work@[work@.len() - 1 - t]);
                assert(planned_queue(*g)[t].is_output == (t >= work@.len() - fo.len()));
            }
        }
    }
    q
}

/// Law: a dependency that is not itself a declared output, and that no
/// queued filter other than its own lists, stands strictly earlier in
/// the queue than the filter that lists it.
///
/// The two side conditions are necessary: when a declared output is
/// also a dependency, or when two queued filters share one, the
/// reversal can place the dependency after its dependent.  The
/// resolver's fixpoint passes do not rely on this ordering.
pub proof fn lemma_queue_dependencies_precede(g: Graph, q: Seq<QueueItem>, t: int, d: int)
    requires
        g.wf(),
        queue_wf(g, q),
        queue_closed(g, q),
        planner_queue_shape(g, q),
        0 <= t < q.len(),
        g.edge(q[t].node as int, d),
        !g.is_output_node(d),
        forall|t2: int|
            0 <= t2 < q.len() && g.edge((#[trigger] q[t2]).node as int, d) ==> q[t2].node
                == q[t].node,
    ensures
        exists|td: int| 0 <= td < t && (#[trigger] q[td]).node == d,
{
    let fo = first_occurrences(g.outputs@);
    let oc = fo.len() as int;
    assert(in_queue(q, d));
    let td = choose|td: int| 0 <= td < q.len() && (#[trigger] q[td]).node == d;
    if td >= q.len() - oc {
        let k = q.len() - 1 - td;
        assert(0 <= k < oc);
        assert(q[q.len() - 1 - k].node == fo[k]);
        lemma_first_occurrences_props(g.outputs@);
        assert(fo.contains(fo[k]));
        assert(g.outputs@.contains(fo[k]));
        let kk = choose|kk: int| 0 <= kk < g.outputs@.len() && g.outputs@[kk] == fo[k];
        assert(g.outputs@[kk] == d);
        assert(g.is_output_node(d));
        assert(false);
    }
    assert(has_later_referrer(g, q, td));
    let t2 = choose|t2: int|
        td < t2 < q.len() && g.edge((#[trigger] q[t2]).node as int, q[td].node as int);
    assert(q[t2].node == q[t].node);
    assert(t2 == t);
    assert(0 <= td < t && q[td].node == d);
}

} // verus!
