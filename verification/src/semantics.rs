//! The mathematical meaning of pipeline construction and execution.
//!
//! Execution is modeled by total spec functions over maps from names to
//! payloads; the executable engine is proved to return exactly what these
//! functions denote.

use vstd::prelude::*;

use crate::node::node_sim;
use crate::node::Node;
use crate::node::NodeCall;
use crate::names::prefixed;
use crate::names::lemma_prefix_injective;
use crate::source::NodeSources;
use crate::ErrorView;

verus! {

/// Remapping a node's inputs: walking the (local, external) pairs in order,
/// each local name is bound to the value of its external name in the evolving
/// view; a missing external name is the error. The list form performs no
/// remapping at all.
pub open spec fn remap_pairs<T>(
    pairs: Seq<(Seq<char>, Seq<char>)>,
    m: Map<Seq<char>, T>,
) -> Result<Map<Seq<char>, T>, Seq<char>>
    decreases pairs.len(),
{
    if pairs.len() == 0 {
        Ok(m)
    } else if m.contains_key(pairs[0].1) {
        remap_pairs(pairs.drop_first(), m.insert(pairs[0].0, m[pairs[0].1]))
    } else {
        Err(pairs[0].1)
    }
}

/// The view of the running state a node function receives.
pub open spec fn remap_view<T>(inputs: NodeSources, m: Map<Seq<char>, T>) -> Result<
    Map<Seq<char>, T>,
    Seq<char>,
> {
    match inputs {
        NodeSources::List(_) => Ok(m),
        NodeSources::Mapping(_) => remap_pairs(inputs.pairs(), m),
    }
}

/// Folding a node's produced store back into the running state: each declared
/// output's local name must be present in the produced store, and its value
/// is written under the external name; a missing local name is the error.
pub open spec fn fold_pairs<T>(
    pairs: Seq<(Seq<char>, Seq<char>)>,
    produced: Map<Seq<char>, T>,
    st: Map<Seq<char>, T>,
) -> Result<Map<Seq<char>, T>, Seq<char>>
    decreases pairs.len(),
{
    if pairs.len() == 0 {
        Ok(st)
    } else if produced.contains_key(pairs[0].0) {
        fold_pairs(pairs.drop_first(), produced, st.insert(pairs[0].1, produced[pairs[0].0]))
    } else {
        Err(pairs[0].0)
    }
}

/// One node's effect on the running state.
pub open spec fn step_spec<T, F: NodeCall<T>>(n: Node<F>, st: Map<Seq<char>, T>) -> Result<
    Map<Seq<char>, T>,
    ErrorView,
> {
    match remap_view(n.inputs, st) {
        Err(name) => Err(ErrorView::DataNotFound(name)),
        Ok(view) => match n.func.f.apply(view.restrict(n.func.f.reads())) {
            Err(e) => Err(e),
            Ok(produced) => match fold_pairs(n.outputs.pairs(), produced, st) {
                Err(name) => Err(ErrorView::DataNotFound(name)),
                Ok(m) => Ok(m),
            },
        },
    }
}

/// A whole run: the nodes' effects in order, stopping at the first error.
pub open spec fn run_spec<T, F: NodeCall<T>>(ns: Seq<Node<F>>, st: Map<Seq<char>, T>) -> Result<
    Map<Seq<char>, T>,
    ErrorView,
>
    decreases ns.len(),
{
    if ns.len() == 0 {
        Ok(st)
    } else {
        match step_spec(ns[0], st) {
            Ok(m) => run_spec(ns.drop_first(), m),
            Err(e) => Err(e),
        }
    }
}

/// Node `p` declares `name` among its external outputs.
pub open spec fn produces<F>(ns: Seq<Node<F>>, p: int, name: Seq<char>) -> bool {
    0 <= p < ns.len() && ns[p].outputs.externals().contains(name)
}

/// Node `c` declares `name` among its external inputs.
pub open spec fn consumes<F>(ns: Seq<Node<F>>, c: int, name: Seq<char>) -> bool {
    0 <= c < ns.len() && ns[c].inputs.externals().contains(name)
}

/// Some node of the pipeline produces `name`.
pub open spec fn some_producer<F>(ns: Seq<Node<F>>, name: Seq<char>) -> bool {
    exists|p: int| produces(ns, p, name)
}

/// Some node of the pipeline consumes `name`.
pub open spec fn some_consumer<F>(ns: Seq<Node<F>>, name: Seq<char>) -> bool {
    exists|c: int| consumes(ns, c, name)
}

/// Every external output produced anywhere in the pipeline.
pub open spec fn all_outputs_set<F>(ns: Seq<Node<F>>) -> Set<Seq<char>> {
    Set::new(|name: Seq<char>| some_producer(ns, name))
}

/// The pipeline's free inputs: external inputs no node produces.
pub open spec fn inputs_set<F>(ns: Seq<Node<F>>) -> Set<Seq<char>> {
    Set::new(|name: Seq<char>| some_consumer(ns, name) && !some_producer(ns, name))
}

/// The pipeline's terminal outputs: external outputs no node consumes.
pub open spec fn outputs_set<F>(ns: Seq<Node<F>>) -> Set<Seq<char>> {
    Set::new(|name: Seq<char>| some_producer(ns, name) && !some_consumer(ns, name))
}

/// The `k`-th external output name declared by node `p`.
pub open spec fn out_name<F>(ns: Seq<Node<F>>, p: int, k: int) -> Seq<char> {
    ns[p].outputs.externals()[k]
}

/// `(p, k)` addresses an output declaration of the pipeline.
pub open spec fn is_out_decl<F>(ns: Seq<Node<F>>, p: int, k: int) -> bool {
    0 <= p < ns.len() && 0 <= k < ns[p].outputs.externals().len()
}

/// The `k`-th external input name declared by node `c`.
pub open spec fn in_name<F>(ns: Seq<Node<F>>, c: int, k: int) -> Seq<char> {
    ns[c].inputs.externals()[k]
}

/// `(c, k)` addresses an input declaration of the pipeline.
pub open spec fn is_in_decl<F>(ns: Seq<Node<F>>, c: int, k: int) -> bool {
    0 <= c < ns.len() && 0 <= k < ns[c].inputs.externals().len()
}

/// Two distinct output declarations carry the external name `name`.
pub open spec fn dup_name<F>(ns: Seq<Node<F>>, name: Seq<char>) -> bool {
    exists|p1: int, k1: int, p2: int, k2: int|
        {
            &&& is_out_decl(ns, p1, k1)
            &&& is_out_decl(ns, p2, k2)
            &&& (p1 != p2 || k1 != k2)
            &&& #[trigger] out_name(ns, p1, k1) == name
            &&& #[trigger] out_name(ns, p2, k2) == name
        }
}

/// Two distinct output declarations somewhere in the pipeline carry the same
/// external name.
pub open spec fn has_dup_outputs<F>(ns: Seq<Node<F>>) -> bool {
    exists|name: Seq<char>| #[trigger] dup_name(ns, name)
}

/// Without duplicate outputs, each name has at most one producer.
pub proof fn lemma_unique_producer<F>(ns: Seq<Node<F>>, name: Seq<char>, p: int, q: int)
    requires
        !has_dup_outputs(ns),
        produces(ns, p, name),
        produces(ns, q, name),
    ensures
        p == q,
{
    if p != q {
        let kp = choose|kp: int| 0 <= kp < ns[p].outputs.externals().len()
            && ns[p].outputs.externals()[kp] == name;
        let kq = choose|kq: int| 0 <= kq < ns[q].outputs.externals().len()
            && ns[q].outputs.externals()[kq] == name;
        assert(out_name(ns, p, kp) == name);
        assert(out_name(ns, q, kq) == name);
        assert(dup_name(ns, name));
    }
}

/// The dependency edge: `p` produces an external name that `c` consumes.
pub open spec fn edge<F>(ns: Seq<Node<F>>, p: int, c: int) -> bool {
    exists|name: Seq<char>| #[trigger] produces(ns, p, name) && consumes(ns, c, name)
}

/// A closed walk along dependency edges.
pub open spec fn is_cycle<F>(ns: Seq<Node<F>>, path: Seq<int>) -> bool {
    &&& path.len() >= 2
    &&& path[0] == path[path.len() - 1]
    &&& forall|k: int| 0 <= k < path.len() - 1 ==> #[trigger] edge(ns, path[k], path[k + 1])
}

/// The producer/consumer wiring contains a cycle.
pub open spec fn has_cycle_nodes<F>(ns: Seq<Node<F>>) -> bool {
    exists|path: Seq<int>| is_cycle(ns, path)
}

/// Every dependency edge points forward in the sequence.
pub open spec fn topo_sorted<F>(ns: Seq<Node<F>>) -> bool {
    forall|p: int, c: int| #[trigger] edge(ns, p, c) ==> p < c
}

/// A valid pipeline: globally unique external outputs, nodes stored in
/// topological order.
pub open spec fn pipeline_wf<F>(ns: Seq<Node<F>>) -> bool {
    !has_dup_outputs(ns) && topo_sorted(ns)
}

/// Some position of `ord` holds the index `i`.
pub open spec fn ord_hits(ord: Seq<int>, i: int) -> bool {
    exists|k: int| 0 <= k < ord.len() && #[trigger] ord[k] == i
}

/// `ms` lists, behaviorally, the nodes `ns[ord[0]], ns[ord[1]], ...` of a
/// bijective index sequence `ord`.
pub open spec fn is_reordering<F>(ms: Seq<Node<F>>, ns: Seq<Node<F>>, ord: Seq<int>) -> bool {
    &&& ord.len() == ns.len()
    &&& ms.len() == ns.len()
    &&& (forall|k: int| 0 <= k < ord.len() ==> 0 <= #[trigger] ord[k] < ns.len())
    &&& (forall|k1: int, k2: int|
        0 <= k1 < k2 < ord.len() ==> #[trigger] ord[k1] != #[trigger] ord[k2])
    &&& (forall|i: int| 0 <= i < ns.len() ==> #[trigger] ord_hits(ord, i))
    &&& (forall|k: int| 0 <= k < ms.len() ==> node_sim(#[trigger] ms[k], ns[ord[k]]))
}

/// Behaviorally equal nodes take equal steps.
pub proof fn lemma_step_congruence<T, F: NodeCall<T>>(a: Node<F>, b: Node<F>, st: Map<Seq<char>, T>)
    requires
        node_sim(a, b),
    ensures
        step_spec(a, st) == step_spec(b, st),
{
    assert(remap_view(a.inputs, st) == remap_view(b.inputs, st)) by {
        match a.inputs {
            NodeSources::List(_) => {
                assert(!a.inputs.is_map());
                assert(!b.inputs.is_map());
            },
            NodeSources::Mapping(_) => {
                assert(a.inputs.is_map());
                assert(b.inputs.is_map());
                assert(a.inputs.pairs() == b.inputs.pairs());
            },
        }
    }
}

/// Behaviorally equal node sequences run identically.
pub proof fn lemma_run_congruence<T, F: NodeCall<T>>(
    ms: Seq<Node<F>>,
    ns: Seq<Node<F>>,
    st: Map<Seq<char>, T>,
)
    requires
        ms.len() == ns.len(),
        forall|k: int| 0 <= k < ms.len() ==> node_sim(#[trigger] ms[k], ns[k]),
    ensures
        run_spec(ms, st) == run_spec(ns, st),
    decreases ms.len(),
{
    if ms.len() > 0 {
        lemma_step_congruence(ms[0], ns[0], st);
        assert(forall|k: int|
            0 <= k < ms.drop_first().len() ==> node_sim(
                #[trigger] ms.drop_first()[k],
                ns.drop_first()[k],
            ));
        match step_spec(ms[0], st) {
            Ok(m) => {
                lemma_run_congruence(ms.drop_first(), ns.drop_first(), m);
            },
            Err(_) => {},
        }
    }
}

/// Behaviorally equal nodes declare the same ports, so the surface sets and
/// the wiring of behaviorally equal sequences coincide.
pub proof fn lemma_surfaces_congruence<F>(ms: Seq<Node<F>>, ns: Seq<Node<F>>)
    requires
        ms.len() == ns.len(),
        forall|k: int| 0 <= k < ms.len() ==> node_sim(#[trigger] ms[k], ns[k]),
    ensures
        all_outputs_set(ms) == all_outputs_set(ns),
        inputs_set(ms) == inputs_set(ns),
        outputs_set(ms) == outputs_set(ns),
        has_dup_outputs(ms) == has_dup_outputs(ns),
        forall|name: Seq<char>| #[trigger] dup_name(ms, name) == dup_name(ns, name),
        forall|p: int, c: int| #[trigger] edge(ms, p, c) == edge(ns, p, c),
        has_cycle_nodes(ms) == has_cycle_nodes(ns),
{
    assert(forall|k: int|
        0 <= k < ms.len() ==> (#[trigger] ms[k]).outputs.externals() == ns[k].outputs.externals()
            && ms[k].inputs.externals() == ns[k].inputs.externals());
    assert(forall|p: int, name: Seq<char>| produces(ms, p, name) == #[trigger] produces(
        ns,
        p,
        name,
    ));
    assert(forall|c: int, name: Seq<char>| consumes(ms, c, name) == #[trigger] consumes(
        ns,
        c,
        name,
    ));
    assert forall|name: Seq<char>|
        #[trigger] some_producer(ms, name) == some_producer(ns, name) by {
        if some_producer(ms, name) {
            let p = choose|p: int| produces(ms, p, name);
            assert(produces(ns, p, name));
        }
        if some_producer(ns, name) {
            let p = choose|p: int| produces(ns, p, name);
            assert(produces(ms, p, name));
        }
    }
    assert forall|name: Seq<char>|
        #[trigger] some_consumer(ms, name) == some_consumer(ns, name) by {
        if some_consumer(ms, name) {
            let c = choose|c: int| consumes(ms, c, name);
            assert(consumes(ns, c, name));
        }
        if some_consumer(ns, name) {
            let c = choose|c: int| consumes(ns, c, name);
            assert(consumes(ms, c, name));
        }
    }
    assert(all_outputs_set(ms) =~= all_outputs_set(ns));
    assert(inputs_set(ms) =~= inputs_set(ns));
    assert(outputs_set(ms) =~= outputs_set(ns));
    assert(forall|p: int, k: int|
        is_out_decl(ms, p, k) == is_out_decl(ns, p, k) && (is_out_decl(ms, p, k)
            ==> #[trigger] out_name(ms, p, k) == out_name(ns, p, k)));
    assert forall|name: Seq<char>| #[trigger] dup_name(ms, name) == dup_name(ns, name) by {
        if dup_name(ms, name) {
            let (p1, k1, p2, k2) = choose|p1: int, k1: int, p2: int, k2: int|
                {
                    &&& is_out_decl(ms, p1, k1)
                    &&& is_out_decl(ms, p2, k2)
                    &&& (p1 != p2 || k1 != k2)
                    &&& #[trigger] out_name(ms, p1, k1) == name
                    &&& #[trigger] out_name(ms, p2, k2) == name
                };
            assert(out_name(ns, p1, k1) == name && out_name(ns, p2, k2) == name);
            assert(dup_name(ns, name));
        }
        if dup_name(ns, name) {
            let (p1, k1, p2, k2) = choose|p1: int, k1: int, p2: int, k2: int|
                {
                    &&& is_out_decl(ns, p1, k1)
                    &&& is_out_decl(ns, p2, k2)
                    &&& (p1 != p2 || k1 != k2)
                    &&& #[trigger] out_name(ns, p1, k1) == name
                    &&& #[trigger] out_name(ns, p2, k2) == name
                };
            assert(out_name(ms, p1, k1) == name && out_name(ms, p2, k2) == name);
            assert(dup_name(ms, name));
        }
    }
    assert(has_dup_outputs(ms) == has_dup_outputs(ns)) by {
        if has_dup_outputs(ms) {
            let name = choose|name: Seq<char>| dup_name(ms, name);
            assert(dup_name(ns, name));
        }
        if has_dup_outputs(ns) {
            let name = choose|name: Seq<char>| dup_name(ns, name);
            assert(dup_name(ms, name));
        }
    }
    assert forall|p: int, c: int| #[trigger] edge(ms, p, c) == edge(ns, p, c) by {
        if edge(ms, p, c) {
            let name = choose|name: Seq<char>|
                #[trigger] produces(ms, p, name) && consumes(ms, c, name);
            assert(produces(ns, p, name) && consumes(ns, c, name));
        }
        if edge(ns, p, c) {
            let name = choose|name: Seq<char>|
                #[trigger] produces(ns, p, name) && consumes(ns, c, name);
            assert(produces(ms, p, name) && consumes(ms, c, name));
        }
    }
    assert(has_cycle_nodes(ms) == has_cycle_nodes(ns)) by {
        if has_cycle_nodes(ms) {
            let path = choose|path: Seq<int>| is_cycle(ms, path);
            assert forall|k: int| 0 <= k < path.len() - 1 implies #[trigger] edge(
                ns,
                path[k],
                path[k + 1],
            ) by {
                assert(edge(ms, path[k], path[k + 1]));
            }
            assert(is_cycle(ns, path));
        }
        if has_cycle_nodes(ns) {
            let path = choose|path: Seq<int>| is_cycle(ns, path);
            assert forall|k: int| 0 <= k < path.len() - 1 implies #[trigger] edge(
                ms,
                path[k],
                path[k + 1],
            ) by {
                assert(edge(ns, path[k], path[k + 1]));
            }
            assert(is_cycle(ms, path));
        }
    }
}

/// The surface sets and duplicate-output status are invariant under
/// reordering the nodes, and the wiring follows the index translation.
pub proof fn lemma_reordering_surfaces<F>(ms: Seq<Node<F>>, ns: Seq<Node<F>>, ord: Seq<int>)
    requires
        is_reordering(ms, ns, ord),
    ensures
        all_outputs_set(ms) == all_outputs_set(ns),
        inputs_set(ms) == inputs_set(ns),
        outputs_set(ms) == outputs_set(ns),
        has_dup_outputs(ms) == has_dup_outputs(ns),
        forall|k1: int, k2: int|
            0 <= k1 < ms.len() && 0 <= k2 < ms.len() ==> #[trigger] edge(ms, k1, k2) == edge(
                ns,
                ord[k1],
                ord[k2],
            ),
{
    assert(forall|k: int|
        0 <= k < ms.len() ==> (#[trigger] ms[k]).outputs.externals() == ns[ord[k]].outputs.externals()
            && ms[k].inputs.externals() == ns[ord[k]].inputs.externals());
    assert forall|name: Seq<char>|
        #[trigger] some_producer(ms, name) == some_producer(ns, name) by {
        if some_producer(ms, name) {
            let k = choose|k: int| produces(ms, k, name);
            assert(produces(ns, ord[k], name));
        }
        if some_producer(ns, name) {
            let p = choose|p: int| produces(ns, p, name);
            assert(ord_hits(ord, p));
            let k = choose|k: int| 0 <= k < ord.len() && ord[k] == p;
            assert(produces(ms, k, name));
        }
    }
    assert forall|name: Seq<char>|
        #[trigger] some_consumer(ms, name) == some_consumer(ns, name) by {
        if some_consumer(ms, name) {
            let k = choose|k: int| consumes(ms, k, name);
            assert(consumes(ns, ord[k], name));
        }
        if some_consumer(ns, name) {
            let c = choose|c: int| consumes(ns, c, name);
            assert(ord_hits(ord, c));
            let k = choose|k: int| 0 <= k < ord.len() && ord[k] == c;
            assert(consumes(ms, k, name));
        }
    }
    assert(all_outputs_set(ms) =~= all_outputs_set(ns));
    assert(inputs_set(ms) =~= inputs_set(ns));
    assert(outputs_set(ms) =~= outputs_set(ns));
    assert(forall|k: int, d: int|
        is_out_decl(ms, k, d) == (0 <= k < ms.len() && is_out_decl(ns, ord[k], d)) && (is_out_decl(
            ms,
            k,
            d,
        ) ==> #[trigger] out_name(ms, k, d) == out_name(ns, ord[k], d)));
    assert(has_dup_outputs(ms) == has_dup_outputs(ns)) by {
        if has_dup_outputs(ms) {
            let name = choose|name: Seq<char>| dup_name(ms, name);
            let (p1, k1, p2, k2) = choose|p1: int, k1: int, p2: int, k2: int|
                {
                    &&& is_out_decl(ms, p1, k1)
                    &&& is_out_decl(ms, p2, k2)
                    &&& (p1 != p2 || k1 != k2)
                    &&& #[trigger] out_name(ms, p1, k1) == name
                    &&& #[trigger] out_name(ms, p2, k2) == name
                };
            assert(out_name(ns, ord[p1], k1) == name && out_name(ns, ord[p2], k2) == name);
            assert(p1 != p2 ==> ord[p1] != ord[p2]);
            assert(dup_name(ns, name));
        }
        if has_dup_outputs(ns) {
            let name = choose|name: Seq<char>| dup_name(ns, name);
            let (p1, k1, p2, k2) = choose|p1: int, k1: int, p2: int, k2: int|
                {
                    &&& is_out_decl(ns, p1, k1)
                    &&& is_out_decl(ns, p2, k2)
                    &&& (p1 != p2 || k1 != k2)
                    &&& #[trigger] out_name(ns, p1, k1) == name
                    &&& #[trigger] out_name(ns, p2, k2) == name
                };
            assert(ord_hits(ord, p1));
            assert(ord_hits(ord, p2));
            let q1 = choose|q1: int| 0 <= q1 < ord.len() && ord[q1] == p1;
            let q2 = choose|q2: int| 0 <= q2 < ord.len() && ord[q2] == p2;
            assert(out_name(ms, q1, k1) == name && out_name(ms, q2, k2) == name);
            assert(dup_name(ms, name));
        }
    }
    assert forall|k1: int, k2: int|
        0 <= k1 < ms.len() && 0 <= k2 < ms.len() implies #[trigger] edge(ms, k1, k2) == edge(
        ns,
        ord[k1],
        ord[k2],
    ) by {
        if edge(ms, k1, k2) {
            let name = choose|name: Seq<char>|
                #[trigger] produces(ms, k1, name) && consumes(ms, k2, name);
            assert(produces(ns, ord[k1], name) && consumes(ns, ord[k2], name));
        }
        if edge(ns, ord[k1], ord[k2]) {
            let name = choose|name: Seq<char>|
                #[trigger] produces(ns, ord[k1], name) && consumes(ns, ord[k2], name);
            assert(produces(ms, k1, name) && consumes(ms, k2, name));
        }
    }
}

/// `a` is `b` with every external name prefixed by `pfx` and the local names
/// kept.
pub open spec fn ns_renamed(a: NodeSources, b: NodeSources, pfx: Seq<char>) -> bool {
    &&& a.pairs().len() == b.pairs().len()
    &&& forall|u: int|
        0 <= u < a.pairs().len() ==> #[trigger] a.pairs()[u] == (
            b.pairs()[u].0,
            prefixed(pfx, b.pairs()[u].1),
        )
}

/// `m` is `n` namespaced by `pfx`: ports promoted to the mapping form with
/// prefixed external names, same function, same tags, and the namespace
/// metadata composed onto any namespace already present.
pub open spec fn renamed_node<F>(m: Node<F>, n: Node<F>, pfx: Seq<char>) -> bool {
    &&& m.inputs.is_map()
    &&& m.outputs.is_map()
    &&& ns_renamed(m.inputs, n.inputs, pfx)
    &&& ns_renamed(m.outputs, n.outputs, pfx)
    &&& m.func.f == n.func.f
    &&& m.tags@ == n.tags@
    &&& match (m.namespace, n.namespace) {
        (Some(s), Some(p)) => s@ == prefixed(pfx, p@),
        (Some(s), None) => s@ == pfx,
        (None, _) => false,
    }
}

/// `ms` lists, namespaced by `pfx`, the nodes `ns[ord[0]], ns[ord[1]], ...`
/// of a bijective index sequence `ord`.
pub open spec fn is_renamed_reordering<F>(
    ms: Seq<Node<F>>,
    ns: Seq<Node<F>>,
    ord: Seq<int>,
    pfx: Seq<char>,
) -> bool {
    &&& ord.len() == ns.len()
    &&& ms.len() == ns.len()
    &&& (forall|k: int| 0 <= k < ord.len() ==> 0 <= #[trigger] ord[k] < ns.len())
    &&& (forall|k1: int, k2: int|
        0 <= k1 < k2 < ord.len() ==> #[trigger] ord[k1] != #[trigger] ord[k2])
    &&& (forall|i: int| 0 <= i < ns.len() ==> #[trigger] ord_hits(ord, i))
    &&& (forall|k: int| 0 <= k < ms.len() ==> renamed_node(#[trigger] ms[k], ns[ord[k]], pfx))
}

/// The set of names of `s`, each prefixed by `pfx`.
pub open spec fn prefixed_set(s: Set<Seq<char>>, pfx: Seq<char>) -> Set<Seq<char>> {
    Set::new(
        |nm: Seq<char>| exists|a: Seq<char>| s.contains(a) && nm == #[trigger] prefixed(pfx, a),
    )
}

/// Namespacing the nodes prefixes every surface name, keeps the wiring and
/// the duplicate-output status, and so keeps acyclicity.
pub proof fn lemma_renamed_wiring<F>(ms: Seq<Node<F>>, ns: Seq<Node<F>>, pfx: Seq<char>)
    requires
        ms.len() == ns.len(),
        forall|k: int| 0 <= k < ms.len() ==> renamed_node(#[trigger] ms[k], ns[k], pfx),
    ensures
        forall|p: int, nm: Seq<char>|
            #[trigger] produces(ms, p, nm) <==> exists|a: Seq<char>|
                produces(ns, p, a) && nm == #[trigger] prefixed(pfx, a),
        forall|p: int, a: Seq<char>|
            #[trigger] produces(ns, p, a) ==> produces(ms, p, prefixed(pfx, a)),
        forall|c: int, nm: Seq<char>|
            #[trigger] consumes(ms, c, nm) <==> exists|a: Seq<char>|
                consumes(ns, c, a) && nm == #[trigger] prefixed(pfx, a),
        forall|c: int, a: Seq<char>|
            #[trigger] consumes(ns, c, a) ==> consumes(ms, c, prefixed(pfx, a)),
        has_dup_outputs(ms) == has_dup_outputs(ns),
        forall|p: int, c: int| #[trigger] edge(ms, p, c) == edge(ns, p, c),
        has_cycle_nodes(ms) == has_cycle_nodes(ns),
        all_outputs_set(ms) == prefixed_set(all_outputs_set(ns), pfx),
        inputs_set(ms) == prefixed_set(inputs_set(ns), pfx),
        outputs_set(ms) == prefixed_set(outputs_set(ns), pfx),
{
    assert(forall|p: int|
        0 <= p < ms.len() ==> (#[trigger] ms[p]).outputs.externals().len()
            == ns[p].outputs.externals().len() && ms[p].inputs.externals().len()
            == ns[p].inputs.externals().len());
    assert(forall|p: int, k: int|
        is_out_decl(ms, p, k) ==> #[trigger] out_name(ms, p, k) == prefixed(
            pfx,
            out_name(ns, p, k),
        ));
    assert(forall|c: int, k: int|
        is_in_decl(ms, c, k) ==> #[trigger] in_name(ms, c, k) == prefixed(pfx, in_name(ns, c, k)));
    assert forall|p: int, nm: Seq<char>| #[trigger] produces(ms, p, nm) implies exists|
        a: Seq<char>,
    |
        produces(ns, p, a) && nm == #[trigger] prefixed(pfx, a) by {
        let k = choose|k: int|
            0 <= k < ms[p].outputs.externals().len() && ms[p].outputs.externals()[k] == nm;
        assert(out_name(ms, p, k) == nm);
        assert(out_name(ns, p, k) == ns[p].outputs.externals()[k]);
        assert(produces(ns, p, out_name(ns, p, k)));
        assert(nm == prefixed(pfx, out_name(ns, p, k)));
    }
    assert forall|p: int, a: Seq<char>| #[trigger] produces(ns, p, a) implies produces(
        ms,
        p,
        prefixed(pfx, a),
    ) by {
        let k = choose|k: int|
            0 <= k < ns[p].outputs.externals().len() && ns[p].outputs.externals()[k] == a;
        assert(out_name(ms, p, k) == prefixed(pfx, a));
        assert(ms[p].outputs.externals()[k] == prefixed(pfx, a));
    }
    assert forall|c: int, nm: Seq<char>| #[trigger] consumes(ms, c, nm) implies exists|
        a: Seq<char>,
    |
        consumes(ns, c, a) && nm == #[trigger] prefixed(pfx, a) by {
        let k = choose|k: int|
            0 <= k < ms[c].inputs.externals().len() && ms[c].inputs.externals()[k] == nm;
        assert(in_name(ms, c, k) == nm);
        assert(consumes(ns, c, in_name(ns, c, k)));
        assert(nm == prefixed(pfx, in_name(ns, c, k)));
    }
    assert forall|c: int, a: Seq<char>| #[trigger] consumes(ns, c, a) implies consumes(
        ms,
        c,
        prefixed(pfx, a),
    ) by {
        let k = choose|k: int|
            0 <= k < ns[c].inputs.externals().len() && ns[c].inputs.externals()[k] == a;
        assert(in_name(ms, c, k) == prefixed(pfx, a));
        assert(ms[c].inputs.externals()[k] == prefixed(pfx, a));
    }
    assert(has_dup_outputs(ms) == has_dup_outputs(ns)) by {
        if has_dup_outputs(ms) {
            let name = choose|name: Seq<char>| dup_name(ms, name);
            let (p1, k1, p2, k2) = choose|p1: int, k1: int, p2: int, k2: int|
                {
                    &&& is_out_decl(ms, p1, k1)
                    &&& is_out_decl(ms, p2, k2)
                    &&& (p1 != p2 || k1 != k2)
                    &&& #[trigger] out_name(ms, p1, k1) == name
                    &&& #[trigger] out_name(ms, p2, k2) == name
                };
            lemma_prefix_injective(pfx, out_name(ns, p1, k1), out_name(ns, p2, k2));
            assert(dup_name(ns, out_name(ns, p1, k1)));
        }
        if has_dup_outputs(ns) {
            let name = choose|name: Seq<char>| dup_name(ns, name);
            let (p1, k1, p2, k2) = choose|p1: int, k1: int, p2: int, k2: int|
                {
                    &&& is_out_decl(ns, p1, k1)
                    &&& is_out_decl(ns, p2, k2)
                    &&& (p1 != p2 || k1 != k2)
                    &&& #[trigger] out_name(ns, p1, k1) == name
                    &&& #[trigger] out_name(ns, p2, k2) == name
                };
            assert(out_name(ms, p1, k1) == prefixed(pfx, name));
            assert(out_name(ms, p2, k2) == prefixed(pfx, name));
            assert(dup_name(ms, prefixed(pfx, name)));
        }
    }
    assert forall|p: int, c: int| #[trigger] edge(ms, p, c) == edge(ns, p, c) by {
        if edge(ms, p, c) {
            let nm = choose|nm: Seq<char>|
                #[trigger] produces(ms, p, nm) && consumes(ms, c, nm);
            let a = choose|a: Seq<char>|
                produces(ns, p, a) && nm == #[trigger] prefixed(pfx, a);
            let b = choose|b: Seq<char>|
                consumes(ns, c, b) && nm == #[trigger] prefixed(pfx, b);
            lemma_prefix_injective(pfx, a, b);
            assert(produces(ns, p, a) && consumes(ns, c, a));
        }
        if edge(ns, p, c) {
            let a = choose|a: Seq<char>|
                #[trigger] produces(ns, p, a) && consumes(ns, c, a);
            assert(produces(ms, p, prefixed(pfx, a)) && consumes(ms, c, prefixed(pfx, a)));
        }
    }
    assert(has_cycle_nodes(ms) == has_cycle_nodes(ns)) by {
        if has_cycle_nodes(ms) {
            let path = choose|path: Seq<int>| is_cycle(ms, path);
            assert forall|k: int| 0 <= k < path.len() - 1 implies #[trigger] edge(
                ns,
                path[k],
                path[k + 1],
            ) by {
                assert(edge(ms, path[k], path[k + 1]));
            }
            assert(is_cycle(ns, path));
        }
        if has_cycle_nodes(ns) {
            let path = choose|path: Seq<int>| is_cycle(ns, path);
            assert forall|k: int| 0 <= k < path.len() - 1 implies #[trigger] edge(
                ms,
                path[k],
                path[k + 1],
            ) by {
                assert(edge(ns, path[k], path[k + 1]));
            }
            assert(is_cycle(ms, path));
        }
    }
    assert forall|nm: Seq<char>|
        #[trigger] some_producer(ms, nm) <==> exists|a: Seq<char>|
            some_producer(ns, a) && nm == #[trigger] prefixed(pfx, a) by {
        if some_producer(ms, nm) {
            let p = choose|p: int| produces(ms, p, nm);
            let a = choose|a: Seq<char>|
                produces(ns, p, a) && nm == #[trigger] prefixed(pfx, a);
            assert(some_producer(ns, a) && nm == prefixed(pfx, a));
        }
        if exists|a: Seq<char>| some_producer(ns, a) && nm == #[trigger] prefixed(pfx, a) {
            let a = choose|a: Seq<char>|
                some_producer(ns, a) && nm == #[trigger] prefixed(pfx, a);
            let p = choose|p: int| produces(ns, p, a);
            assert(produces(ms, p, prefixed(pfx, a)));
        }
    }
    assert forall|nm: Seq<char>|
        #[trigger] some_consumer(ms, nm) <==> exists|a: Seq<char>|
            some_consumer(ns, a) && nm == #[trigger] prefixed(pfx, a) by {
        if some_consumer(ms, nm) {
            let c = choose|c: int| consumes(ms, c, nm);
            let a = choose|a: Seq<char>|
                consumes(ns, c, a) && nm == #[trigger] prefixed(pfx, a);
            assert(some_consumer(ns, a) && nm == prefixed(pfx, a));
        }
        if exists|a: Seq<char>| some_consumer(ns, a) && nm == #[trigger] prefixed(pfx, a) {
            let a = choose|a: Seq<char>|
                some_consumer(ns, a) && nm == #[trigger] prefixed(pfx, a);
            let c = choose|c: int| consumes(ns, c, a);
            assert(consumes(ms, c, prefixed(pfx, a)));
        }
    }
    assert(all_outputs_set(ms) =~= prefixed_set(all_outputs_set(ns), pfx)) by {
        assert forall|nm: Seq<char>|
            all_outputs_set(ms).contains(nm) == prefixed_set(all_outputs_set(ns), pfx).contains(
                nm,
            ) by {
            if all_outputs_set(ms).contains(nm) {
                let a = choose|a: Seq<char>|
                    some_producer(ns, a) && nm == #[trigger] prefixed(pfx, a);
                assert(all_outputs_set(ns).contains(a));
            }
            if prefixed_set(all_outputs_set(ns), pfx).contains(nm) {
                let a = choose|a: Seq<char>|
                    all_outputs_set(ns).contains(a) && nm == #[trigger] prefixed(pfx, a);
                assert(some_producer(ns, a) && nm == prefixed(pfx, a));
            }
        }
    }
    assert(inputs_set(ms) =~= prefixed_set(inputs_set(ns), pfx)) by {
        assert forall|nm: Seq<char>|
            inputs_set(ms).contains(nm) == prefixed_set(inputs_set(ns), pfx).contains(nm) by {
            if inputs_set(ms).contains(nm) {
                let a = choose|a: Seq<char>|
                    some_consumer(ns, a) && nm == #[trigger] prefixed(pfx, a);
                assert(!some_producer(ns, a)) by {
                    if some_producer(ns, a) {
                        assert(produces(
                            ms,
                            choose|p: int| produces(ns, p, a),
                            prefixed(pfx, a),
                        ));
                    }
                }
                assert(inputs_set(ns).contains(a));
            }
            if prefixed_set(inputs_set(ns), pfx).contains(nm) {
                let a = choose|a: Seq<char>|
                    inputs_set(ns).contains(a) && nm == #[trigger] prefixed(pfx, a);
                assert(some_consumer(ms, prefixed(pfx, a)));
                assert(!some_producer(ms, nm)) by {
                    if some_producer(ms, nm) {
                        let b = choose|b: Seq<char>|
                            some_producer(ns, b) && nm == #[trigger] prefixed(pfx, b);
                        lemma_prefix_injective(pfx, a, b);
                    }
                }
            }
        }
    }
    assert(outputs_set(ms) =~= prefixed_set(outputs_set(ns), pfx)) by {
        assert forall|nm: Seq<char>|
            outputs_set(ms).contains(nm) == prefixed_set(outputs_set(ns), pfx).contains(nm) by {
            if outputs_set(ms).contains(nm) {
                let a = choose|a: Seq<char>|
                    some_producer(ns, a) && nm == #[trigger] prefixed(pfx, a);
                assert(!some_consumer(ns, a)) by {
                    if some_consumer(ns, a) {
                        assert(consumes(
                            ms,
                            choose|c: int| consumes(ns, c, a),
                            prefixed(pfx, a),
                        ));
                    }
                }
                assert(outputs_set(ns).contains(a));
            }
            if prefixed_set(outputs_set(ns), pfx).contains(nm) {
                let a = choose|a: Seq<char>|
                    outputs_set(ns).contains(a) && nm == #[trigger] prefixed(pfx, a);
                assert(some_producer(ms, prefixed(pfx, a)));
                assert(!some_consumer(ms, nm)) by {
                    if some_consumer(ms, nm) {
                        let b = choose|b: Seq<char>|
                            some_consumer(ns, b) && nm == #[trigger] prefixed(pfx, b);
                        lemma_prefix_injective(pfx, a, b);
                    }
                }
            }
        }
    }
}

proof fn lemma_increasing_chain(path: Seq<int>)
    requires
        path.len() >= 1,
        forall|k: int| 0 <= k < path.len() - 1 ==> #[trigger] path[k] < path[k + 1],
    ensures
        path.len() >= 2 ==> path[0] < path[path.len() - 1],
    decreases path.len(),
{
    if path.len() >= 2 {
        let d = path.drop_last();
        assert(forall|k: int| 0 <= k < d.len() ==> #[trigger] d[k] == path[k]);
        lemma_increasing_chain(d);
    }
}

/// A topologically ordered pipeline has no cycle.
pub proof fn lemma_topo_sorted_acyclic<F>(ns: Seq<Node<F>>)
    requires
        topo_sorted(ns),
    ensures
        !has_cycle_nodes(ns),
{
    if has_cycle_nodes(ns) {
        let path = choose|path: Seq<int>| is_cycle(ns, path);
        assert forall|k: int| 0 <= k < path.len() - 1 implies #[trigger] path[k] < path[k + 1] by {
            assert(edge(ns, path[k], path[k + 1]));
        }
        lemma_increasing_chain(path);
    }
}

} // verus!
