//! Validated pipelines: construction, execution, surface queries and
//! composition.

use vstd::prelude::*;

use crate::container::Container;
use crate::container::ContainerData;
use crate::graph::graph_add_edge;
use crate::graph::graph_add_node;
use crate::graph::graph_new;
use crate::graph::graph_toposort;
use crate::graph::has_edge_cycle;
use crate::graph::is_edge_cycle;
use crate::graph::is_topo_order;
use crate::graph::lemma_topo_order_no_cycle;
use crate::graph::order_hits;
use crate::graph::DepGraph;
use crate::names::prefix_source;
use crate::names::prefix_text;
use crate::names::prefixed;
use crate::node::call_view;
use crate::node::dup_tags;
use crate::node::mint_node_id;
use crate::node::NodeFunc;
use crate::node::node_sim;
use crate::node::Node;
use crate::node::NodeCall;
use crate::semantics::dup_name;
use crate::semantics::edge;
use crate::semantics::fold_pairs;
use crate::semantics::remap_pairs;
use crate::semantics::remap_view;
use crate::semantics::run_spec;
use crate::semantics::step_spec;
use crate::semantics::has_cycle_nodes;
use crate::semantics::has_dup_outputs;
use crate::semantics::in_name;
use crate::semantics::is_cycle;
use crate::semantics::is_in_decl;
use crate::semantics::is_out_decl;
use crate::semantics::is_renamed_reordering;
use crate::semantics::is_reordering;
use crate::semantics::lemma_renamed_wiring;
use crate::semantics::lemma_reordering_surfaces;
use crate::semantics::lemma_topo_sorted_acyclic;
use crate::semantics::lemma_unique_producer;
use crate::semantics::ord_hits;
use crate::semantics::out_name;
use crate::semantics::pipeline_wf;
use crate::semantics::renamed_node;
use crate::semantics::produces;
use crate::semantics::consumes;
use crate::semantics::some_consumer;
use crate::semantics::some_producer;
use crate::semantics::topo_sorted;
use crate::source::views_of;
use crate::source::NodeSources;
use crate::source::Source;
use crate::Context;
use crate::ErrorView;
use crate::QupidoError;
use crate::QupidoResult;

verus! {

/// A validated DAG of nodes, stored in topological order together with its
/// dependency graph.
pub struct Pipeline<F> {
    nodes: Vec<Node<F>>,
    graph: DepGraph,
}

impl<F> View for Pipeline<F> {
    type V = Seq<Node<F>>;

    closed spec fn view(&self) -> Seq<Node<F>> {
        self.nodes@
    }
}

impl<F> Pipeline<F> {
    /// A pipeline built by this library: globally unique external outputs,
    /// nodes in topological order.
    pub open spec fn wf(&self) -> bool {
        pipeline_wf(self@)
    }
}

/// `(p, kp)` comes strictly before position `(i, k)` in the declaration scan.
spec fn before(p: int, kp: int, i: int, k: int) -> bool {
    p < i || (p == i && kp < k)
}

/// No two distinct output declarations before `(i, k)` share a name.
spec fn prefix_no_dup<F>(ns: Seq<Node<F>>, i: int, k: int) -> bool {
    forall|p1: int, k1: int, p2: int, k2: int|
        is_out_decl(ns, p1, k1) && is_out_decl(ns, p2, k2) && before(p1, k1, i, k) && before(
            p2,
            k2,
            i,
            k,
        ) && (p1 != p2 || k1 != k2) ==> #[trigger] out_name(ns, p1, k1) != #[trigger] out_name(
            ns,
            p2,
            k2,
        )
}

/// The entry records an output declaration before `(i, k)`: its name and its
/// producing node.
spec fn entry_ok<F>(e: (Source, usize), ns: Seq<Node<F>>, i: int, k: int) -> bool {
    exists|p: int, kp: int|
        is_out_decl(ns, p, kp) && before(p, kp, i, k) && #[trigger] out_name(ns, p, kp) == e.0@
            && e.1 == p
}

/// Every producer entry records an output declaration before `(i, k)`.
spec fn producers_entries<F>(prod: Seq<(Source, usize)>, ns: Seq<Node<F>>, i: int, k: int) -> bool {
    forall|t: int| 0 <= t < prod.len() ==> entry_ok(#[trigger] prod[t], ns, i, k)
}

/// Some producer entry carries `name`.
spec fn prod_has_name(prod: Seq<(Source, usize)>, name: Seq<char>) -> bool {
    exists|t: int| 0 <= t < prod.len() && (#[trigger] prod[t]).0@ == name
}

/// Every output declaration before `(i, k)` has a producer entry.
spec fn producers_cover<F>(prod: Seq<(Source, usize)>, ns: Seq<Node<F>>, i: int, k: int) -> bool {
    forall|p: int, kp: int|
        is_out_decl(ns, p, kp) && before(p, kp, i, k) ==> prod_has_name(
            prod,
            #[trigger] out_name(ns, p, kp),
        )
}

fn find_producer(prod: &Vec<(Source, usize)>, name: &Source) -> (r: Option<usize>)
    ensures
        match r {
            Some(t) => t < prod@.len() && prod@[t as int].0@ == name@,
            None => !prod_has_name(prod@, name@),
        },
{
    let mut t: usize = 0;
    while t < prod.len()
        invariant
            t <= prod@.len(),
            forall|u: int| 0 <= u < t ==> (#[trigger] prod@[u]).0@ != name@,
        decreases prod@.len() - t,
    {
        if crate::names::src_eq(&prod[t].0, name) {
            return Some(t);
        }
        t = t + 1;
    }
    None
}

/// Scans every output declaration, recording its producer; the first name
/// declared twice is the error.
fn build_producers<F>(nodes: &[Node<F>]) -> (r: Result<Vec<(Source, usize)>, QupidoError>)
    ensures
        match r {
            Ok(prod) => {
                &&& !has_dup_outputs(nodes@)
                &&& producers_entries(prod@, nodes@, nodes@.len() as int, 0)
                &&& producers_cover(prod@, nodes@, nodes@.len() as int, 0)
            },
            Err(e) => has_dup_outputs(nodes@) && (e matches QupidoError::DuplicateData(s)
                && dup_name(nodes@, s@)),
        },
{
    let ghost ns = nodes@;
    let mut prod: Vec<(Source, usize)> = Vec::new();
    let mut i: usize = 0;
    while i < nodes.len()
        invariant
            ns == nodes@,
            i <= ns.len(),
            producers_entries(prod@, ns, i as int, 0),
            producers_cover(prod@, ns, i as int, 0),
            prefix_no_dup(ns, i as int, 0),
        decreases ns.len() - i,
    {
        let outs = nodes[i].outputs.outputs();
        let ghost exts = ns[i as int].outputs.externals();
        proof {
            assert(views_of(outs@) == exts);
            assert(forall|kk: int| 0 <= kk < outs@.len() ==> #[trigger] outs@[kk]@ == exts[kk]);
            assert forall|t: int| 0 <= t < prod@.len() implies entry_ok(
                #[trigger] prod@[t],
                ns,
                i as int,
                0,
            ) by {}
        }
        let mut k: usize = 0;
        while k < outs.len()
            invariant
                ns == nodes@,
                i < ns.len(),
                k <= outs@.len(),
                views_of(outs@) == exts,
                exts == ns[i as int].outputs.externals(),
                producers_entries(prod@, ns, i as int, k as int),
                producers_cover(prod@, ns, i as int, k as int),
                prefix_no_dup(ns, i as int, k as int),
            decreases outs@.len() - k,
        {
            proof {
                assert(outs@[k as int]@ == exts[k as int]);
                assert(out_name(ns, i as int, k as int) == outs@[k as int]@);
                assert(is_out_decl(ns, i as int, k as int));
            }
            match find_producer(&prod, &outs[k]) {
                Some(t) => {
                    let ghost name = outs@[k as int]@;
                    proof {
                        assert(entry_ok(prod@[t as int], ns, i as int, k as int));
                        let (p, kp) = choose|p: int, kp: int|
                            is_out_decl(ns, p, kp) && before(p, kp, i as int, k as int) && (
                            #[trigger] out_name(ns, p, kp)) == prod@[t as int].0@ && prod@[
                                t as int
                            ].1 == p;
                        assert(out_name(ns, p, kp) == name);
                        assert((p != i as int || kp != k as int));
                        assert(dup_name(ns, name));
                    }
                    return Err(QupidoError::DuplicateData(outs[k].get_id()));
                },
                None => {
                    let ghost old_prod = prod@;
                    let entry = (outs[k].dup(), i);
                    prod.push(entry);
                    proof {
                        assert(prod@ == old_prod.push(entry));
                        assert(forall|t: int| 0 <= t < old_prod.len() ==> prod@[t] == old_prod[t]);
                        assert(entry.0@ == out_name(ns, i as int, k as int));
                        // The new entry records the declaration just scanned.
                        assert(entry_ok(prod@[old_prod.len() as int], ns, i as int, k as int + 1))
                            by {
                            assert(before(i as int, k as int, i as int, k as int + 1));
                            assert(out_name(ns, i as int, k as int) == prod@[
                                old_prod.len() as int
                            ].0@);
                        }
                        assert forall|t: int| 0 <= t < prod@.len() implies entry_ok(
                            #[trigger] prod@[t],
                            ns,
                            i as int,
                            k as int + 1,
                        ) by {
                            if t < old_prod.len() {
                                assert(entry_ok(old_prod[t], ns, i as int, k as int));
                                let (p, kp) = choose|p: int, kp: int|
                                    is_out_decl(ns, p, kp) && before(p, kp, i as int, k as int) && (
                                    #[trigger] out_name(ns, p, kp)) == old_prod[t].0@ && old_prod[
                                        t
                                    ].1 == p;
                                assert(before(p, kp, i as int, k as int + 1));
                                assert(entry_ok(prod@[t], ns, i as int, k as int + 1));
                            }
                        }
                        assert forall|p: int, kp: int|
                            is_out_decl(ns, p, kp) && before(p, kp, i as int, k as int + 1) implies
                        prod_has_name(prod@, #[trigger] out_name(ns, p, kp)) by {
                            if before(p, kp, i as int, k as int) {
                                assert(prod_has_name(old_prod, out_name(ns, p, kp)));
                                let t = choose|t: int|
                                    0 <= t < old_prod.len() && (#[trigger] old_prod[t]).0@
                                        == out_name(ns, p, kp);
                                assert(prod@[t].0@ == out_name(ns, p, kp));
                            } else {
                                assert(p == i as int && kp == k as int);
                                assert(prod@[old_prod.len() as int].0@ == out_name(ns, p, kp));
                            }
                        }
                        // The scanned name was absent, so the prefix stays
                        // duplicate-free.
                        assert forall|p1: int, k1: int, p2: int, k2: int|
                            is_out_decl(ns, p1, k1) && is_out_decl(ns, p2, k2) && before(
                                p1,
                                k1,
                                i as int,
                                k as int + 1,
                            ) && before(p2, k2, i as int, k as int + 1) && (p1 != p2 || k1
                                != k2) implies #[trigger] out_name(ns, p1, k1)
                            != #[trigger] out_name(ns, p2, k2) by {
                            if before(p1, k1, i as int, k as int) && before(
                                p2,
                                k2,
                                i as int,
                                k as int,
                            ) {
                            } else if before(p1, k1, i as int, k as int) {
                                // (p2, k2) is the scanned declaration.
                                if out_name(ns, p1, k1) == out_name(ns, p2, k2) {
                                    assert(prod_has_name(old_prod, out_name(ns, p1, k1)));
                                }
                            } else if before(p2, k2, i as int, k as int) {
                                if out_name(ns, p1, k1) == out_name(ns, p2, k2) {
                                    assert(prod_has_name(old_prod, out_name(ns, p2, k2)));
                                }
                            } else {
                            }
                        }
                    }
                },
            }
            k = k + 1;
        }
        proof {
            assert(k as int == exts.len());
            assert forall|t: int| 0 <= t < prod@.len() implies entry_ok(
                #[trigger] prod@[t],
                ns,
                i as int + 1,
                0,
            ) by {
                assert(entry_ok(prod@[t], ns, i as int, k as int));
                let (p, kp) = choose|p: int, kp: int|
                    is_out_decl(ns, p, kp) && before(p, kp, i as int, k as int) && (
                    #[trigger] out_name(ns, p, kp)) == prod@[t].0@ && prod@[t].1 == p;
                assert(before(p, kp, i as int + 1, 0));
            }
            assert forall|p: int, kp: int|
                is_out_decl(ns, p, kp) && before(p, kp, i as int + 1, 0) implies prod_has_name(
                prod@,
                #[trigger] out_name(ns, p, kp),
            ) by {
                assert(before(p, kp, i as int, k as int));
            }
            assert forall|p1: int, k1: int, p2: int, k2: int|
                is_out_decl(ns, p1, k1) && is_out_decl(ns, p2, k2) && before(
                    p1,
                    k1,
                    i as int + 1,
                    0,
                ) && before(p2, k2, i as int + 1, 0) && (p1 != p2 || k1 != k2) implies
            #[trigger] out_name(ns, p1, k1) != #[trigger] out_name(ns, p2, k2) by {
                assert(before(p1, k1, i as int, k as int));
                assert(before(p2, k2, i as int, k as int));
            }
        }
        i = i + 1;
    }
    proof {
        assert(!has_dup_outputs(ns)) by {
            if has_dup_outputs(ns) {
                let name = choose|name: Seq<char>| dup_name(ns, name);
                let (p1, k1, p2, k2) = choose|p1: int, k1: int, p2: int, k2: int|
                    {
                        &&& is_out_decl(ns, p1, k1)
                        &&& is_out_decl(ns, p2, k2)
                        &&& (p1 != p2 || k1 != k2)
                        &&& #[trigger] out_name(ns, p1, k1) == name
                        &&& #[trigger] out_name(ns, p2, k2) == name
                    };
                assert(before(p1, k1, ns.len() as int, 0));
                assert(before(p2, k2, ns.len() as int, 0));
            }
        }
    }
    Ok(prod)
}

/// Every recorded edge is a real dependency of the pipeline.
spec fn edges_sound<F>(list: Seq<(nat, nat)>, ns: Seq<Node<F>>) -> bool {
    forall|t: int|
        0 <= t < list.len() ==> edge(ns, (#[trigger] list[t]).0 as int, list[t].1 as int)
}

/// Some recorded edge feeds `name` into node `c`.
spec fn list_has_edge_for<F>(list: Seq<(nat, nat)>, ns: Seq<Node<F>>, c: int, name: Seq<char>) -> bool {
    exists|t: int|
        0 <= t < list.len() && (#[trigger] list[t]).1 == c && produces(ns, list[t].0 as int, name)
}

/// Every produced input declared before `(ci, k)` has a recorded edge.
spec fn edges_complete<F>(list: Seq<(nat, nat)>, ns: Seq<Node<F>>, ci: int, k: int) -> bool {
    forall|c: int, kc: int|
        is_in_decl(ns, c, kc) && before(c, kc, ci, k) && some_producer(
            ns,
            #[trigger] in_name(ns, c, kc),
        ) ==> list_has_edge_for(list, ns, c, in_name(ns, c, kc))
}

/// With sound and complete edges and unique producers, the recorded edges are
/// exactly the pipeline's dependencies, and the two cycle notions agree.
proof fn lemma_edges_bridge<F>(list: Seq<(nat, nat)>, ns: Seq<Node<F>>)
    requires
        edges_sound(list, ns),
        edges_complete(list, ns, ns.len() as int, 0),
        !has_dup_outputs(ns),
    ensures
        forall|p: int, c: int| #[trigger] edge(ns, p, c) ==> list.contains((p as nat, c as nat)),
        has_edge_cycle(ns.len() as nat, list) == has_cycle_nodes(ns),
{
    assert forall|p: int, c: int| #[trigger] edge(ns, p, c) implies list.contains(
        (p as nat, c as nat),
    ) by {
        let name = choose|name: Seq<char>|
            #[trigger] produces(ns, p, name) && consumes(ns, c, name);
        let kc = choose|kc: int|
            0 <= kc < ns[c].inputs.externals().len() && ns[c].inputs.externals()[kc] == name;
        assert(is_in_decl(ns, c, kc));
        assert(in_name(ns, c, kc) == name);
        assert(before(c, kc, ns.len() as int, 0));
        assert(list_has_edge_for(list, ns, c, name));
        let t = choose|t: int|
            0 <= t < list.len() && (#[trigger] list[t]).1 == c && produces(
                ns,
                list[t].0 as int,
                name,
            );
        lemma_unique_producer(ns, name, list[t].0 as int, p);
        assert(list[t] == (p as nat, c as nat));
    }
    assert(has_edge_cycle(ns.len() as nat, list) == has_cycle_nodes(ns)) by {
        if has_cycle_nodes(ns) {
            let path = choose|path: Seq<int>| is_cycle(ns, path);
            let pathn = path.map_values(|x: int| x as nat);
            assert(pathn.len() == path.len());
            assert forall|k: int| 0 <= k < pathn.len() - 1 implies #[trigger] list.contains(
                (pathn[k], pathn[k + 1]),
            ) by {
                assert(edge(ns, path[k], path[k + 1]));
                assert(path[k] >= 0 && path[k + 1] >= 0);
                assert(pathn[k] == path[k] as nat && pathn[k + 1] == path[k + 1] as nat);
            }
            assert(pathn[0] == pathn[pathn.len() - 1]) by {
                assert(path[0] == path[path.len() - 1]);
            }
            assert(is_edge_cycle(pathn, list));
        }
        if has_edge_cycle(ns.len() as nat, list) {
            let pathn = choose|pathn: Seq<nat>| is_edge_cycle(pathn, list);
            let path = pathn.map_values(|x: nat| x as int);
            assert(path.len() == pathn.len());
            assert forall|k: int| 0 <= k < path.len() - 1 implies #[trigger] edge(
                ns,
                path[k],
                path[k + 1],
            ) by {
                assert(list.contains((pathn[k], pathn[k + 1])));
                let t = choose|t: int| 0 <= t < list.len() && list[t] == (pathn[k], pathn[k + 1]);
                assert(edge(ns, list[t].0 as int, list[t].1 as int));
            }
            assert(path[0] == path[path.len() - 1]) by {
                assert(pathn[0] == pathn[pathn.len() - 1]);
            }
            assert(is_cycle(ns, path));
        }
    }
}

impl<F: ContainerData> Pipeline<F> {
    /// Validates a set of nodes into a pipeline.
    ///
    /// Fails with `DuplicateData` exactly when two output declarations share
    /// an external name, naming one such name; otherwise fails with
    /// `InvalidPipeline` exactly when the producer/consumer wiring holds a
    /// cycle. On success the pipeline holds behavior-preserving copies of the
    /// given nodes, reordered topologically.
    pub fn from_nodes(nodes: &[Node<F>]) -> (r: QupidoResult<Pipeline<F>>)
        ensures
            match r {
                Ok(p) => {
                    &&& !has_dup_outputs(nodes@)
                    &&& !has_cycle_nodes(nodes@)
                    &&& p.wf()
                    &&& exists|ord: Seq<int>| #[trigger] is_reordering(p@, nodes@, ord)
                },
                Err(e) => {
                    ||| (has_dup_outputs(nodes@) && (e matches QupidoError::DuplicateData(s)
                        && dup_name(nodes@, s@)))
                    ||| (!has_dup_outputs(nodes@) && has_cycle_nodes(nodes@) && (
                    e matches QupidoError::InvalidPipeline))
                },
            },
    {
        let ghost ns = nodes@;
        let prod = match build_producers(nodes) {
            Ok(p) => p,
            Err(e) => {
                return Err(e);
            },
        };
        let mut g = graph_new();
        let mut i: usize = 0;
        while i < nodes.len()
            invariant
                ns == nodes@,
                i <= ns.len(),
                crate::graph::graph_node_count(g) == i as nat,
                crate::graph::graph_edge_list(g) == Seq::<(nat, nat)>::empty(),
            decreases ns.len() - i,
        {
            let _v: usize = graph_add_node(&mut g, nodes[i].id);
            i = i + 1;
        }
        let mut ci: usize = 0;
        while ci < nodes.len()
            invariant
                ns == nodes@,
                ci <= ns.len(),
                !has_dup_outputs(ns),
                producers_entries(prod@, ns, ns.len() as int, 0),
                producers_cover(prod@, ns, ns.len() as int, 0),
                crate::graph::graph_node_count(g) == ns.len() as nat,
                edges_sound(crate::graph::graph_edge_list(g), ns),
                edges_complete(crate::graph::graph_edge_list(g), ns, ci as int, 0),
            decreases ns.len() - ci,
        {
            let ins = nodes[ci].inputs.inputs();
            let ghost in_exts = ns[ci as int].inputs.externals();
            proof {
                assert(views_of(ins@) == in_exts);
                assert(forall|kk: int| 0 <= kk < ins@.len() ==> #[trigger] ins@[kk]@ == in_exts[kk]);
            }
            let mut k: usize = 0;
            while k < ins.len()
                invariant
                    ns == nodes@,
                    ci < ns.len(),
                    k <= ins@.len(),
                    views_of(ins@) == in_exts,
                    in_exts == ns[ci as int].inputs.externals(),
                    !has_dup_outputs(ns),
                    producers_entries(prod@, ns, ns.len() as int, 0),
                    producers_cover(prod@, ns, ns.len() as int, 0),
                    crate::graph::graph_node_count(g) == ns.len() as nat,
                    edges_sound(crate::graph::graph_edge_list(g), ns),
                    edges_complete(crate::graph::graph_edge_list(g), ns, ci as int, k as int),
                decreases ins@.len() - k,
            {
                let ghost name = in_exts[k as int];
                proof {
                    assert(ins@[k as int]@ == name);
                    assert(in_name(ns, ci as int, k as int) == name);
                    assert(is_in_decl(ns, ci as int, k as int));
                }
                match find_producer(&prod, &ins[k]) {
                    Some(t) => {
                        let p = prod[t].1;
                        proof {
                            assert(entry_ok(prod@[t as int], ns, ns.len() as int, 0));
                            let (pp, kp) = choose|pp: int, kp: int|
                                is_out_decl(ns, pp, kp) && before(pp, kp, ns.len() as int, 0) && (
                                #[trigger] out_name(ns, pp, kp)) == prod@[t as int].0@ && prod@[
                                    t as int
                                ].1 == pp;
                            assert(ns[pp].outputs.externals()[kp] == name);
                            assert(produces(ns, p as int, name));
                        }
                        let ghost old_list = crate::graph::graph_edge_list(g);
                        graph_add_edge(&mut g, p, ci, ins[k].get_id());
                        proof {
                            let list = crate::graph::graph_edge_list(g);
                            assert(list == old_list.push((p as nat, ci as nat)));
                            assert(forall|u: int| 0 <= u < old_list.len() ==> list[u] == old_list[u]);
                            assert(consumes(ns, ci as int, name));
                            assert(edge(ns, p as int, ci as int)) by {
                                assert(produces(ns, p as int, name) && consumes(
                                    ns,
                                    ci as int,
                                    name,
                                ));
                            }
                            assert forall|c: int, kc: int|
                                is_in_decl(ns, c, kc) && before(c, kc, ci as int, k as int + 1)
                                    && some_producer(ns, #[trigger] in_name(ns, c, kc)) implies
                            list_has_edge_for(list, ns, c, in_name(ns, c, kc)) by {
                                if before(c, kc, ci as int, k as int) {
                                    assert(list_has_edge_for(old_list, ns, c, in_name(ns, c, kc)));
                                    let u = choose|u: int|
                                        0 <= u < old_list.len() && (#[trigger] old_list[u]).1 == c
                                            && produces(ns, old_list[u].0 as int, in_name(ns, c, kc));
                                    assert(list[u] == old_list[u]);
                                } else {
                                    assert(c == ci as int && kc == k as int);
                                    assert(list[old_list.len() as int] == (p as nat, ci as nat));
                                    assert(produces(ns, p as int, in_name(ns, c, kc)));
                                }
                            }
                        }
                    },
                    None => {
                        proof {
                            assert(!some_producer(ns, name)) by {
                                if some_producer(ns, name) {
                                    let q = choose|q: int| produces(ns, q, name);
                                    let kq = choose|kq: int|
                                        0 <= kq < ns[q].outputs.externals().len()
                                            && ns[q].outputs.externals()[kq] == name;
                                    assert(is_out_decl(ns, q, kq));
                                    assert(out_name(ns, q, kq) == name);
                                    assert(before(q, kq, ns.len() as int, 0));
                                    assert(prod_has_name(prod@, name));
                                }
                            }
                            assert forall|c: int, kc: int|
                                is_in_decl(ns, c, kc) && before(c, kc, ci as int, k as int + 1)
                                    && some_producer(ns, #[trigger] in_name(ns, c, kc)) implies
                            list_has_edge_for(
                                crate::graph::graph_edge_list(g),
                                ns,
                                c,
                                in_name(ns, c, kc),
                            ) by {
                                assert(before(c, kc, ci as int, k as int));
                            }
                        }
                    },
                }
                k = k + 1;
            }
            proof {
                assert forall|c: int, kc: int|
                    is_in_decl(ns, c, kc) && before(c, kc, ci as int + 1, 0) && some_producer(
                        ns,
                        #[trigger] in_name(ns, c, kc),
                    ) implies list_has_edge_for(
                    crate::graph::graph_edge_list(g),
                    ns,
                    c,
                    in_name(ns, c, kc),
                ) by {
                    assert(before(c, kc, ci as int, k as int));
                }
            }
            ci = ci + 1;
        }
        proof {
            lemma_edges_bridge(crate::graph::graph_edge_list(g), ns);
        }
        let order = match graph_toposort(&g) {
            Err(_) => {
                return Err(QupidoError::InvalidPipeline);
            },
            Ok(o) => o,
        };
        proof {
            assert forall|t: int|
                0 <= t < crate::graph::graph_edge_list(g).len() implies (#[trigger] crate::graph::graph_edge_list(
                g,
            )[t]).0 < ns.len() as nat && crate::graph::graph_edge_list(g)[t].1
                < ns.len() as nat by {
                assert(edge(
                    ns,
                    crate::graph::graph_edge_list(g)[t].0 as int,
                    crate::graph::graph_edge_list(g)[t].1 as int,
                ));
            }
            lemma_topo_order_no_cycle(
                order@,
                ns.len() as nat,
                crate::graph::graph_edge_list(g),
            );
        }
        let mut sorted: Vec<Node<F>> = Vec::new();
        let mut k: usize = 0;
        while k < order.len()
            invariant
                ns == nodes@,
                k <= order@.len(),
                sorted@.len() == k,
                is_topo_order(
                    order@,
                    ns.len() as nat,
                    crate::graph::graph_edge_list(g),
                ),
                forall|j: int|
                    0 <= j < k ==> node_sim(#[trigger] sorted@[j], ns[order@[j] as int]),
            decreases order@.len() - k,
        {
            let idx = order[k];
            assert(idx < nodes.len());
            sorted.push(nodes[idx].dup());
            k = k + 1;
        }
        let ghost list = crate::graph::graph_edge_list(g);
        let ghost ord = order@.map_values(|u: usize| u as int);
        proof {
            assert(ord.len() == order@.len());
            assert(forall|j: int| 0 <= j < ord.len() ==> #[trigger] ord[j] == order@[j] as int);
            assert forall|v: int| 0 <= v < ns.len() implies #[trigger] ord_hits(ord, v) by {
                assert(order_hits(order@, v as nat));
                let j = choose|j: int|
                    0 <= j < order@.len() && (#[trigger] order@[j] as nat) == v as nat;
                assert(ord[j] == v);
            }
            assert(is_reordering(sorted@, ns, ord));
            lemma_reordering_surfaces(sorted@, ns, ord);
            assert(topo_sorted(sorted@)) by {
                assert forall|x: int, y: int| #[trigger] edge(sorted@, x, y) implies x < y by {
                    assert(0 <= x < sorted@.len() && 0 <= y < sorted@.len());
                    assert(edge(ns, ord[x], ord[y]));
                    assert(list.contains((ord[x] as nat, ord[y] as nat)));
                    let t = choose|t: int|
                        0 <= t < list.len() && list[t] == (ord[x] as nat, ord[y] as nat);
                    assert(order@[x] as nat == list[t].0);
                    assert(order@[y] as nat == list[t].1);
                }
            }
        }
        Ok(Pipeline { nodes: sorted, graph: g })
    }
}

/// Builds the view a node function receives: the running state with the
/// node's mapped inputs bound to their local names; a missing external name
/// is a `DataNotFound` error.
fn remap_inputs<T: ContainerData>(inputs: &NodeSources, state: &Container<T>) -> (r: QupidoResult<
    Container<T>,
>)
    requires
        state.wf(),
    ensures
        match r {
            Ok(v) => v.wf() && remap_view(*inputs, state@) == Ok::<Map<Seq<char>, T>, Seq<char>>(
                v@,
            ),
            Err(e) => (remap_view(*inputs, state@) matches Err(nm) && e@ == ErrorView::DataNotFound(
                nm,
            )),
        },
{
    let mut view = state.duplicate();
    match inputs {
        NodeSources::List(_) => Ok(view),
        NodeSources::Mapping(m) => {
            let ghost pairs = inputs.pairs();
            proof {
                assert(pairs.skip(0) =~= pairs);
            }
            let mut j: usize = 0;
            while j < m.len()
                invariant
                    j <= m@.len(),
                    inputs.is_map(),
                    pairs == inputs.pairs(),
                    pairs.len() == m@.len(),
                    forall|u: int| 0 <= u < pairs.len() ==> #[trigger] pairs[u] == (m@[u].0@, m@[u].1@),
                    view.wf(),
                    remap_pairs(pairs, state@) == remap_pairs(pairs.skip(j as int), view@),
                decreases m@.len() - j,
            {
                proof {
                    assert(pairs[j as int] == (m@[j as int].0@, m@[j as int].1@));
                    assert(pairs.skip(j as int)[0] == pairs[j as int]);
                    assert(pairs.skip(j as int).drop_first() =~= pairs.skip(j as int + 1));
                }
                let ext = &m[j].1;
                let val = match view.get(ext.as_str()) {
                    Ok(v) => v.dup(),
                    Err(_) => {
                        proof {
                            assert(pairs.skip(j as int).len() > 0);
                            assert(!view@.contains_key(pairs[j as int].1));
                            assert(remap_pairs(pairs.skip(j as int), view@) == Err::<
                                Map<Seq<char>, T>,
                                Seq<char>,
                            >(pairs[j as int].1));
                        }
                        return Err(QupidoError::DataNotFound(ext.get_id()));
                    },
                };
                view.upsert(m[j].0.as_str(), val);
                j = j + 1;
            }
            proof {
                assert(pairs.skip(pairs.len() as int) =~= Seq::<(Seq<char>, Seq<char>)>::empty());
            }
            Ok(view)
        },
    }
}

/// Writes a node's declared outputs from its produced store back into the
/// running state under their external names; a missing local name is a
/// `DataNotFound` error.
fn fold_outputs<T: ContainerData>(
    outputs: &NodeSources,
    produced: &Container<T>,
    state: &mut Container<T>,
) -> (r: QupidoResult<()>)
    requires
        old(state).wf(),
        produced.wf(),
    ensures
        match r {
            Ok(_) => final(state).wf() && fold_pairs(outputs.pairs(), produced@, old(state)@)
                == Ok::<Map<Seq<char>, T>, Seq<char>>(final(state)@),
            Err(e) => (fold_pairs(outputs.pairs(), produced@, old(state)@) matches Err(nm) && e@
                == ErrorView::DataNotFound(nm)),
        },
{
    let ghost pairs = outputs.pairs();
    proof {
        assert(pairs.skip(0) =~= pairs);
    }
    match outputs {
        NodeSources::List(l) => {
            let mut j: usize = 0;
            while j < l.len()
                invariant
                    j <= l@.len(),
                    pairs == outputs.pairs(),
                    pairs.len() == l@.len(),
                    forall|u: int| 0 <= u < pairs.len() ==> #[trigger] pairs[u] == (l@[u]@, l@[u]@),
                    produced.wf(),
                    state.wf(),
                    fold_pairs(pairs, produced@, old(state)@) == fold_pairs(
                        pairs.skip(j as int),
                        produced@,
                        state@,
                    ),
                decreases l@.len() - j,
            {
                proof {
                    assert(pairs[j as int] == (l@[j as int]@, l@[j as int]@));
                    assert(pairs.skip(j as int)[0] == pairs[j as int]);
                    assert(pairs.skip(j as int).drop_first() =~= pairs.skip(j as int + 1));
                }
                let name = &l[j];
                let val = match produced.get(name.as_str()) {
                    Ok(v) => v.dup(),
                    Err(_) => {
                        proof {
                            assert(pairs.skip(j as int).len() > 0);
                            assert(!produced@.contains_key(pairs[j as int].0));
                            assert(fold_pairs(pairs.skip(j as int), produced@, state@) == Err::<
                                Map<Seq<char>, T>,
                                Seq<char>,
                            >(pairs[j as int].0));
                        }
                        return Err(QupidoError::DataNotFound(name.get_id()));
                    },
                };
                state.upsert(name.as_str(), val);
                j = j + 1;
            }
            proof {
                assert(pairs.skip(pairs.len() as int) =~= Seq::<(Seq<char>, Seq<char>)>::empty());
            }
            Ok(())
        },
        NodeSources::Mapping(m) => {
            let mut j: usize = 0;
            while j < m.len()
                invariant
                    j <= m@.len(),
                    pairs == outputs.pairs(),
                    pairs.len() == m@.len(),
                    forall|u: int| 0 <= u < pairs.len() ==> #[trigger] pairs[u] == (m@[u].0@, m@[u].1@),
                    produced.wf(),
                    state.wf(),
                    fold_pairs(pairs, produced@, old(state)@) == fold_pairs(
                        pairs.skip(j as int),
                        produced@,
                        state@,
                    ),
                decreases m@.len() - j,
            {
                proof {
                    assert(pairs[j as int] == (m@[j as int].0@, m@[j as int].1@));
                    assert(pairs.skip(j as int)[0] == pairs[j as int]);
                    assert(pairs.skip(j as int).drop_first() =~= pairs.skip(j as int + 1));
                }
                let local = &m[j].0;
                let ext = &m[j].1;
                let val = match produced.get(local.as_str()) {
                    Ok(v) => v.dup(),
                    Err(_) => {
                        proof {
                            assert(pairs.skip(j as int).len() > 0);
                            assert(!produced@.contains_key(pairs[j as int].0));
                            assert(fold_pairs(pairs.skip(j as int), produced@, state@) == Err::<
                                Map<Seq<char>, T>,
                                Seq<char>,
                            >(pairs[j as int].0));
                        }
                        return Err(QupidoError::DataNotFound(local.get_id()));
                    },
                };
                state.upsert(ext.as_str(), val);
                j = j + 1;
            }
            proof {
                assert(pairs.skip(pairs.len() as int) =~= Seq::<(Seq<char>, Seq<char>)>::empty());
            }
            Ok(())
        },
    }
}

impl<F> Pipeline<F> {
    /// Executes the pipeline against a seed store.
    ///
    /// The nodes run in the stored topological order: each one sees the
    /// running state with its mapped inputs bound to their local names, and
    /// its declared outputs are written back under their external names. The
    /// result is exactly what the pipeline's mathematical semantics denote;
    /// the seed store is not modified.
    pub fn run<T: ContainerData>(&self, container: &Container<T>) -> (r: QupidoResult<Container<T>>)
        where F: NodeCall<T>,

        requires
            container.wf(),
        ensures
            call_view(r) == run_spec(self@, container@),
            r matches Ok(c) ==> c.wf(),
    {
        let ghost ns = self@;
        let mut state = container.duplicate();
        let mut i: usize = 0;
        proof {
            assert(ns.skip(0) =~= ns);
        }
        while i < self.nodes.len()
            invariant
                ns == self@,
                i <= ns.len(),
                state.wf(),
                run_spec(ns, container@) == run_spec(ns.skip(i as int), state@),
            decreases ns.len() - i,
        {
            let n = &self.nodes[i];
            let ghost pre_state = state@;
            proof {
                assert(*n == ns[i as int]);
                assert(ns.skip(i as int)[0] == ns[i as int]);
                assert(ns.skip(i as int).drop_first() =~= ns.skip(i as int + 1));
            }
            let view = match remap_inputs(&n.inputs, &state) {
                Ok(v) => v,
                Err(e) => {
                    proof {
                        assert(step_spec(ns[i as int], pre_state) == Err::<
                            Map<Seq<char>, T>,
                            ErrorView,
                        >(e@));
                    }
                    return Err(e);
                },
            };
            let ctx = Context { inputs: view };
            let produced = match n.func.f.call(&ctx) {
                Ok(c) => c,
                Err(e) => {
                    proof {
                        assert(step_spec(ns[i as int], pre_state) == Err::<
                            Map<Seq<char>, T>,
                            ErrorView,
                        >(e@));
                    }
                    return Err(e);
                },
            };
            match fold_outputs(&n.outputs, &produced, &mut state) {
                Ok(_) => {
                    proof {
                        assert(step_spec(ns[i as int], pre_state) == Ok::<
                            Map<Seq<char>, T>,
                            ErrorView,
                        >(state@));
                    }
                },
                Err(e) => {
                    proof {
                        assert(step_spec(ns[i as int], pre_state) == Err::<
                            Map<Seq<char>, T>,
                            ErrorView,
                        >(e@));
                    }
                    return Err(e);
                },
            }
            i = i + 1;
        }
        proof {
            assert(ns.skip(ns.len() as int) =~= Seq::<Node<F>>::empty());
        }
        Ok(state)
    }
}

/// Some element of `s` carries the name `nm`.
spec fn names_include(s: Seq<Source>, nm: Seq<char>) -> bool {
    exists|t: int| 0 <= t < s.len() && (#[trigger] s[t])@ == nm
}

/// Whether any node of the pipeline declares `name` as an external output.
fn produced_by_any<F>(nodes: &Vec<Node<F>>, name: &Source) -> (b: bool)
    ensures
        b == some_producer(nodes@, name@),
{
    let ghost ns = nodes@;
    let mut p: usize = 0;
    while p < nodes.len()
        invariant
            ns == nodes@,
            p <= ns.len(),
            forall|q: int| 0 <= q < p ==> !produces(ns, q, name@),
        decreases ns.len() - p,
    {
        let outs = nodes[p].outputs.outputs();
        let ghost exts = ns[p as int].outputs.externals();
        proof {
            assert(forall|kk: int| 0 <= kk < outs@.len() ==> #[trigger] outs@[kk]@ == exts[kk]);
        }
        let mut k: usize = 0;
        while k < outs.len()
            invariant
                ns == nodes@,
                p < ns.len(),
                k <= outs@.len(),
                views_of(outs@) == exts,
                exts == ns[p as int].outputs.externals(),
                forall|kk: int| 0 <= kk < k ==> exts[kk] != name@,
            decreases outs@.len() - k,
        {
            if crate::names::src_eq(&outs[k], name) {
                proof {
                    assert(outs@[k as int]@ == exts[k as int]);
                    assert(produces(ns, p as int, name@));
                }
                return true;
            }
            proof {
                assert(outs@[k as int]@ == exts[k as int]);
            }
            k = k + 1;
        }
        proof {
            assert(!produces(ns, p as int, name@)) by {
                if exts.contains(name@) {
                    let kk = choose|kk: int| 0 <= kk < exts.len() && exts[kk] == name@;
                }
            }
        }
        p = p + 1;
    }
    proof {
        assert(!some_producer(ns, name@)) by {
            if some_producer(ns, name@) {
                let q = choose|q: int| produces(ns, q, name@);
            }
        }
    }
    false
}

/// Whether any node of the pipeline declares `name` as an external input.
fn consumed_by_any<F>(nodes: &Vec<Node<F>>, name: &Source) -> (b: bool)
    ensures
        b == some_consumer(nodes@, name@),
{
    let ghost ns = nodes@;
    let mut c: usize = 0;
    while c < nodes.len()
        invariant
            ns == nodes@,
            c <= ns.len(),
            forall|q: int| 0 <= q < c ==> !consumes(ns, q, name@),
        decreases ns.len() - c,
    {
        let ins = nodes[c].inputs.inputs();
        let ghost exts = ns[c as int].inputs.externals();
        proof {
            assert(forall|kk: int| 0 <= kk < ins@.len() ==> #[trigger] ins@[kk]@ == exts[kk]);
        }
        let mut k: usize = 0;
        while k < ins.len()
            invariant
                ns == nodes@,
                c < ns.len(),
                k <= ins@.len(),
                views_of(ins@) == exts,
                exts == ns[c as int].inputs.externals(),
                forall|kk: int| 0 <= kk < k ==> exts[kk] != name@,
            decreases ins@.len() - k,
        {
            if crate::names::src_eq(&ins[k], name) {
                proof {
                    assert(ins@[k as int]@ == exts[k as int]);
                    assert(consumes(ns, c as int, name@));
                }
                return true;
            }
            proof {
                assert(ins@[k as int]@ == exts[k as int]);
            }
            k = k + 1;
        }
        proof {
            assert(!consumes(ns, c as int, name@)) by {
                if exts.contains(name@) {
                    let kk = choose|kk: int| 0 <= kk < exts.len() && exts[kk] == name@;
                }
            }
        }
        c = c + 1;
    }
    proof {
        assert(!some_consumer(ns, name@)) by {
            if some_consumer(ns, name@) {
                let q = choose|q: int| consumes(ns, q, name@);
            }
        }
    }
    false
}

impl<F> Pipeline<F> {
    /// The pipeline's free inputs: external input names no node in the
    /// pipeline produces. Strictly sorted, duplicate-free.
    pub fn inputs(&self) -> (r: Vec<Source>)
        ensures
            crate::names::strictly_sorted(views_of(r@)),
            views_of(r@).to_set() == crate::semantics::inputs_set(self@),
    {
        let ghost ns = self@;
        let mut acc: Vec<Source> = Vec::new();
        let mut c: usize = 0;
        while c < self.nodes.len()
            invariant
                ns == self@,
                c <= ns.len(),
                forall|t: int|
                    0 <= t < acc@.len() ==> crate::semantics::inputs_set(ns).contains(
                        (#[trigger] acc@[t])@,
                    ),
                forall|q: int, kc: int|
                    is_in_decl(ns, q, kc) && q < c && !some_producer(ns, in_name(ns, q, kc))
                        ==> names_include(acc@, #[trigger] in_name(ns, q, kc)),
            decreases ns.len() - c,
        {
            let ins = self.nodes[c].inputs.inputs();
            let ghost exts = ns[c as int].inputs.externals();
            proof {
                assert(forall|kk: int| 0 <= kk < ins@.len() ==> #[trigger] ins@[kk]@ == exts[kk]);
            }
            let mut k: usize = 0;
            while k < ins.len()
                invariant
                    ns == self@,
                    c < ns.len(),
                    k <= ins@.len(),
                    views_of(ins@) == exts,
                    exts == ns[c as int].inputs.externals(),
                    forall|t: int|
                        0 <= t < acc@.len() ==> crate::semantics::inputs_set(ns).contains(
                            (#[trigger] acc@[t])@,
                        ),
                    forall|q: int, kc: int|
                        is_in_decl(ns, q, kc) && before(q, kc, c as int, k as int)
                            && !some_producer(ns, in_name(ns, q, kc)) ==> names_include(
                            acc@,
                            #[trigger] in_name(ns, q, kc),
                        ),
                decreases ins@.len() - k,
            {
                let ghost old_acc = acc@;
                proof {
                    assert(ins@[k as int]@ == exts[k as int]);
                    assert(in_name(ns, c as int, k as int) == ins@[k as int]@);
                    assert(is_in_decl(ns, c as int, k as int));
                    assert(consumes(ns, c as int, ins@[k as int]@));
                }
                if !produced_by_any(&self.nodes, &ins[k]) {
                    acc.push(ins[k].dup());
                    proof {
                        assert(forall|t: int| 0 <= t < old_acc.len() ==> acc@[t] == old_acc[t]);
                        assert(acc@[old_acc.len() as int]@ == in_name(ns, c as int, k as int));
                        assert(crate::semantics::inputs_set(ns).contains(
                            in_name(ns, c as int, k as int),
                        )) by {
                            assert(some_consumer(ns, in_name(ns, c as int, k as int)));
                        }
                        assert forall|q: int, kc: int|
                            is_in_decl(ns, q, kc) && before(q, kc, c as int, k as int + 1)
                                && !some_producer(ns, in_name(ns, q, kc)) implies names_include(
                            acc@,
                            #[trigger] in_name(ns, q, kc),
                        ) by {
                            if before(q, kc, c as int, k as int) {
                                let t = choose|t: int|
                                    0 <= t < old_acc.len() && (#[trigger] old_acc[t])@ == in_name(
                                        ns,
                                        q,
                                        kc,
                                    );
                                assert(acc@[t]@ == in_name(ns, q, kc));
                            } else {
                                assert(acc@[old_acc.len() as int]@ == in_name(ns, q, kc));
                            }
                        }
                    }
                } else {
                    proof {
                        assert forall|q: int, kc: int|
                            is_in_decl(ns, q, kc) && before(q, kc, c as int, k as int + 1)
                                && !some_producer(ns, in_name(ns, q, kc)) implies names_include(
                            acc@,
                            #[trigger] in_name(ns, q, kc),
                        ) by {
                            assert(before(q, kc, c as int, k as int));
                        }
                    }
                }
                k = k + 1;
            }
            proof {
                assert forall|q: int, kc: int|
                    is_in_decl(ns, q, kc) && q < c as int + 1 && !some_producer(
                        ns,
                        in_name(ns, q, kc),
                    ) implies names_include(acc@, #[trigger] in_name(ns, q, kc)) by {
                    assert(before(q, kc, c as int, k as int));
                }
            }
            c = c + 1;
        }
        let r = crate::names::sort_dedup(acc);
        proof {
            assert(views_of(r@).to_set() =~= crate::semantics::inputs_set(ns)) by {
                assert forall|nm: Seq<char>|
                    views_of(r@).to_set().contains(nm) implies crate::semantics::inputs_set(
                    ns,
                ).contains(nm) by {
                    let t = choose|t: int|
                        0 <= t < views_of(r@).len() && views_of(r@)[t] == nm;
                    assert(views_of(acc@).to_set().contains(nm));
                    let u = choose|u: int|
                        0 <= u < views_of(acc@).len() && views_of(acc@)[u] == nm;
                    assert(acc@[u]@ == nm);
                }
                assert forall|nm: Seq<char>|
                    crate::semantics::inputs_set(ns).contains(nm) implies views_of(
                    r@,
                ).to_set().contains(nm) by {
                    let q = choose|q: int| consumes(ns, q, nm);
                    let kc = choose|kc: int|
                        0 <= kc < ns[q].inputs.externals().len() && ns[q].inputs.externals()[kc]
                            == nm;
                    assert(is_in_decl(ns, q, kc));
                    assert(in_name(ns, q, kc) == nm);
                    assert(names_include(acc@, nm));
                    let t = choose|t: int| 0 <= t < acc@.len() && (#[trigger] acc@[t])@ == nm;
                    assert(views_of(acc@)[t] == nm);
                    assert(views_of(acc@).to_set().contains(nm));
                }
            }
        }
        r
    }

    /// The pipeline's terminal outputs: external output names no node in the
    /// pipeline consumes. Strictly sorted, duplicate-free.
    pub fn outputs(&self) -> (r: Vec<Source>)
        ensures
            crate::names::strictly_sorted(views_of(r@)),
            views_of(r@).to_set() == crate::semantics::outputs_set(self@),
    {
        let ghost ns = self@;
        let mut acc: Vec<Source> = Vec::new();
        let mut p: usize = 0;
        while p < self.nodes.len()
            invariant
                ns == self@,
                p <= ns.len(),
                forall|t: int|
                    0 <= t < acc@.len() ==> crate::semantics::outputs_set(ns).contains(
                        (#[trigger] acc@[t])@,
                    ),
                forall|q: int, kp: int|
                    is_out_decl(ns, q, kp) && q < p && !crate::semantics::some_consumer(
                        ns,
                        out_name(ns, q, kp),
                    ) ==> names_include(acc@, #[trigger] out_name(ns, q, kp)),
            decreases ns.len() - p,
        {
            let outs = self.nodes[p].outputs.outputs();
            let ghost exts = ns[p as int].outputs.externals();
            proof {
                assert(forall|kk: int| 0 <= kk < outs@.len() ==> #[trigger] outs@[kk]@ == exts[kk]);
            }
            let mut k: usize = 0;
            while k < outs.len()
                invariant
                    ns == self@,
                    p < ns.len(),
                    k <= outs@.len(),
                    views_of(outs@) == exts,
                    exts == ns[p as int].outputs.externals(),
                    forall|t: int|
                        0 <= t < acc@.len() ==> crate::semantics::outputs_set(ns).contains(
                            (#[trigger] acc@[t])@,
                        ),
                    forall|q: int, kp: int|
                        is_out_decl(ns, q, kp) && before(q, kp, p as int, k as int)
                            && !crate::semantics::some_consumer(ns, out_name(ns, q, kp))
                            ==> names_include(acc@, #[trigger] out_name(ns, q, kp)),
                decreases outs@.len() - k,
            {
                let ghost old_acc = acc@;
                proof {
                    assert(outs@[k as int]@ == exts[k as int]);
                    assert(out_name(ns, p as int, k as int) == outs@[k as int]@);
                    assert(is_out_decl(ns, p as int, k as int));
                    assert(produces(ns, p as int, outs@[k as int]@));
                }
                if !consumed_by_any(&self.nodes, &outs[k]) {
                    acc.push(outs[k].dup());
                    proof {
                        assert(forall|t: int| 0 <= t < old_acc.len() ==> acc@[t] == old_acc[t]);
                        assert(acc@[old_acc.len() as int]@ == out_name(ns, p as int, k as int));
                        assert(crate::semantics::outputs_set(ns).contains(
                            out_name(ns, p as int, k as int),
                        )) by {
                            assert(some_producer(ns, out_name(ns, p as int, k as int)));
                        }
                        assert forall|q: int, kp: int|
                            is_out_decl(ns, q, kp) && before(q, kp, p as int, k as int + 1)
                                && !crate::semantics::some_consumer(ns, out_name(ns, q, kp))
                                implies names_include(acc@, #[trigger] out_name(ns, q, kp)) by {
                            if before(q, kp, p as int, k as int) {
                                let t = choose|t: int|
                                    0 <= t < old_acc.len() && (#[trigger] old_acc[t])@ == out_name(
                                        ns,
                                        q,
                                        kp,
                                    );
                                assert(acc@[t]@ == out_name(ns, q, kp));
                            } else {
                                assert(acc@[old_acc.len() as int]@ == out_name(ns, q, kp));
                            }
                        }
                    }
                } else {
                    proof {
                        assert forall|q: int, kp: int|
                            is_out_decl(ns, q, kp) && before(q, kp, p as int, k as int + 1)
                                && !crate::semantics::some_consumer(ns, out_name(ns, q, kp))
                                implies names_include(acc@, #[trigger] out_name(ns, q, kp)) by {
                            assert(before(q, kp, p as int, k as int));
                        }
                    }
                }
                k = k + 1;
            }
            proof {
                assert forall|q: int, kp: int|
                    is_out_decl(ns, q, kp) && q < p as int + 1 && !crate::semantics::some_consumer(
                        ns,
                        out_name(ns, q, kp),
                    ) implies names_include(acc@, #[trigger] out_name(ns, q, kp)) by {
                    assert(before(q, kp, p as int, k as int));
                }
            }
            p = p + 1;
        }
        let r = crate::names::sort_dedup(acc);
        proof {
            assert(views_of(r@).to_set() =~= crate::semantics::outputs_set(ns)) by {
                assert forall|nm: Seq<char>|
                    views_of(r@).to_set().contains(nm) implies crate::semantics::outputs_set(
                    ns,
                ).contains(nm) by {
                    let t = choose|t: int|
                        0 <= t < views_of(r@).len() && views_of(r@)[t] == nm;
                    assert(views_of(acc@).to_set().contains(nm));
                    let u = choose|u: int|
                        0 <= u < views_of(acc@).len() && views_of(acc@)[u] == nm;
                    assert(acc@[u]@ == nm);
                }
                assert forall|nm: Seq<char>|
                    crate::semantics::outputs_set(ns).contains(nm) implies views_of(
                    r@,
                ).to_set().contains(nm) by {
                    let q = choose|q: int| produces(ns, q, nm);
                    let kp = choose|kp: int|
                        0 <= kp < ns[q].outputs.externals().len() && ns[q].outputs.externals()[kp]
                            == nm;
                    assert(is_out_decl(ns, q, kp));
                    assert(out_name(ns, q, kp) == nm);
                    assert(names_include(acc@, nm));
                    let t = choose|t: int| 0 <= t < acc@.len() && (#[trigger] acc@[t])@ == nm;
                    assert(views_of(acc@)[t] == nm);
                    assert(views_of(acc@).to_set().contains(nm));
                }
            }
        }
        r
    }

    /// Every external output produced anywhere in the pipeline. Strictly
    /// sorted, duplicate-free.
    pub fn all_outputs(&self) -> (r: Vec<Source>)
        ensures
            crate::names::strictly_sorted(views_of(r@)),
            views_of(r@).to_set() == crate::semantics::all_outputs_set(self@),
    {
        let ghost ns = self@;
        let mut acc: Vec<Source> = Vec::new();
        let mut p: usize = 0;
        while p < self.nodes.len()
            invariant
                ns == self@,
                p <= ns.len(),
                forall|t: int|
                    0 <= t < acc@.len() ==> some_producer(ns, (#[trigger] acc@[t])@),
                forall|q: int, kp: int|
                    is_out_decl(ns, q, kp) && q < p ==> names_include(
                        acc@,
                        #[trigger] out_name(ns, q, kp),
                    ),
            decreases ns.len() - p,
        {
            let outs = self.nodes[p].outputs.outputs();
            let ghost exts = ns[p as int].outputs.externals();
            proof {
                assert(forall|kk: int| 0 <= kk < outs@.len() ==> #[trigger] outs@[kk]@ == exts[kk]);
            }
            let mut k: usize = 0;
            while k < outs.len()
                invariant
                    ns == self@,
                    p < ns.len(),
                    k <= outs@.len(),
                    views_of(outs@) == exts,
                    exts == ns[p as int].outputs.externals(),
                    forall|t: int|
                        0 <= t < acc@.len() ==> some_producer(ns, (#[trigger] acc@[t])@),
                    forall|q: int, kp: int|
                        is_out_decl(ns, q, kp) && before(q, kp, p as int, k as int)
                            ==> names_include(acc@, #[trigger] out_name(ns, q, kp)),
                decreases outs@.len() - k,
            {
                let ghost old_acc = acc@;
                proof {
                    assert(outs@[k as int]@ == exts[k as int]);
                    assert(out_name(ns, p as int, k as int) == outs@[k as int]@);
                    assert(is_out_decl(ns, p as int, k as int));
                    assert(produces(ns, p as int, outs@[k as int]@));
                }
                acc.push(outs[k].dup());
                proof {
                    assert(forall|t: int| 0 <= t < old_acc.len() ==> acc@[t] == old_acc[t]);
                    assert(acc@[old_acc.len() as int]@ == out_name(ns, p as int, k as int));
                    assert forall|q: int, kp: int|
                        is_out_decl(ns, q, kp) && before(q, kp, p as int, k as int + 1) implies
                    names_include(acc@, #[trigger] out_name(ns, q, kp)) by {
                        if before(q, kp, p as int, k as int) {
                            let t = choose|t: int|
                                0 <= t < old_acc.len() && (#[trigger] old_acc[t])@ == out_name(
                                    ns,
                                    q,
                                    kp,
                                );
                            assert(acc@[t]@ == out_name(ns, q, kp));
                        } else {
                            assert(acc@[old_acc.len() as int]@ == out_name(ns, q, kp));
                        }
                    }
                }
                k = k + 1;
            }
            proof {
                assert forall|q: int, kp: int|
                    is_out_decl(ns, q, kp) && q < p as int + 1 implies names_include(
                    acc@,
                    #[trigger] out_name(ns, q, kp),
                ) by {
                    assert(before(q, kp, p as int, k as int));
                }
            }
            p = p + 1;
        }
        let r = crate::names::sort_dedup(acc);
        proof {
            assert(views_of(r@).to_set() =~= crate::semantics::all_outputs_set(ns)) by {
                assert forall|nm: Seq<char>|
                    views_of(r@).to_set().contains(nm) implies crate::semantics::all_outputs_set(
                    ns,
                ).contains(nm) by {
                    let t = choose|t: int|
                        0 <= t < views_of(r@).len() && views_of(r@)[t] == nm;
                    assert(views_of(acc@).to_set().contains(nm));
                    let u = choose|u: int|
                        0 <= u < views_of(acc@).len() && views_of(acc@)[u] == nm;
                    assert(acc@[u]@ == nm);
                }
                assert forall|nm: Seq<char>|
                    crate::semantics::all_outputs_set(ns).contains(nm) implies views_of(
                    r@,
                ).to_set().contains(nm) by {
                    let q = choose|q: int| produces(ns, q, nm);
                    let kp = choose|kp: int|
                        0 <= kp < ns[q].outputs.externals().len() && ns[q].outputs.externals()[kp]
                            == nm;
                    assert(is_out_decl(ns, q, kp));
                    assert(out_name(ns, q, kp) == nm);
                    assert(names_include(acc@, nm));
                    let t = choose|t: int| 0 <= t < acc@.len() && (#[trigger] acc@[t])@ == nm;
                    assert(views_of(acc@)[t] == nm);
                    assert(views_of(acc@).to_set().contains(nm));
                }
            }
        }
        r
    }
}

impl<F: ContainerData> Pipeline<F> {
    /// Concatenates two pipelines and revalidates the whole: duplicate
    /// outputs across the halves or a newly formed cycle fail exactly as in
    /// construction.
    pub fn add(&self, other: &Pipeline<F>) -> (r: QupidoResult<Pipeline<F>>)
        ensures
            match r {
                Ok(p) => {
                    &&& !has_dup_outputs(self@ + other@)
                    &&& !has_cycle_nodes(self@ + other@)
                    &&& p.wf()
                    &&& exists|ord: Seq<int>| #[trigger] is_reordering(p@, self@ + other@, ord)
                },
                Err(e) => {
                    ||| (has_dup_outputs(self@ + other@) && (e matches QupidoError::DuplicateData(
                        s,
                    ) && dup_name(self@ + other@, s@)))
                    ||| (!has_dup_outputs(self@ + other@) && has_cycle_nodes(self@ + other@) && (
                    e matches QupidoError::InvalidPipeline))
                },
            },
    {
        let ghost comb = self@ + other@;
        let mut a: Vec<Node<F>> = Vec::new();
        let mut i: usize = 0;
        while i < self.nodes.len()
            invariant
                comb == self@ + other@,
                i <= self@.len(),
                a@.len() == i,
                forall|j: int| 0 <= j < i ==> node_sim(#[trigger] a@[j], comb[j]),
            decreases self@.len() - i,
        {
            proof {
                assert(comb[i as int] == self@[i as int]);
            }
            a.push(self.nodes[i].dup());
            i = i + 1;
        }
        let mut j: usize = 0;
        while j < other.nodes.len()
            invariant
                comb == self@ + other@,
                j <= other@.len(),
                a@.len() == self@.len() + j,
                forall|u: int| 0 <= u < a@.len() ==> node_sim(#[trigger] a@[u], comb[u]),
            decreases other@.len() - j,
        {
            proof {
                assert(comb[self@.len() + j as int] == other@[j as int]);
            }
            a.push(other.nodes[j].dup());
            j = j + 1;
        }
        proof {
            assert(a@.len() == comb.len());
            crate::semantics::lemma_surfaces_congruence(a@, comb);
        }
        let r = Self::from_nodes(a.as_slice());
        proof {
            if let Ok(p) = &r {
                let ord = choose|ord: Seq<int>| is_reordering(p@, a@, ord);
                assert(is_reordering(p@, comb, ord)) by {
                    assert forall|k: int| 0 <= k < p@.len() implies node_sim(
                        #[trigger] p@[k],
                        comb[ord[k]],
                    ) by {
                        assert(node_sim(p@[k], a@[ord[k]]));
                        assert(node_sim(a@[ord[k]], comb[ord[k]]));
                    }
                }
            }
        }
        r
    }
}


impl<F: ContainerData> Pipeline<F> {
    /// Returns the pipeline with every external name qualified as
    /// `{namespace}.{name}`. Local names — and with them the node functions —
    /// are untouched; node identities are regenerated and the namespace
    /// metadata is composed. Since prefixing is injective, the result always
    /// validates.
    pub fn with_namespace(&self, namespace: &str) -> (r: QupidoResult<Pipeline<F>>)
        requires
            self.wf(),
        ensures
            (r matches Ok(p) && p.wf() && exists|ord: Seq<int>|
                #[trigger] is_renamed_reordering(p@, self@, ord, namespace@)),
    {
        let ghost ns = self@;
        let mut mapped: Vec<Node<F>> = Vec::new();
        let mut i: usize = 0;
        while i < self.nodes.len()
            invariant
                ns == self@,
                i <= ns.len(),
                mapped@.len() == i,
                forall|j: int|
                    0 <= j < i ==> renamed_node(#[trigger] mapped@[j], ns[j], namespace@),
            decreases ns.len() - i,
        {
            let n = &self.nodes[i];
            let new_inputs = n.inputs.map(
                (|s: &Source| -> (r2: Source)
                    ensures
                        r2@ == prefixed(namespace@, s@),
                    { prefix_source(namespace, s) }),
                Ghost(|x: Seq<char>| prefixed(namespace@, x)),
            );
            let new_outputs = n.outputs.map(
                (|s: &Source| -> (r2: Source)
                    ensures
                        r2@ == prefixed(namespace@, s@),
                    { prefix_source(namespace, s) }),
                Ghost(|x: Seq<char>| prefixed(namespace@, x)),
            );
            let new_namespace = match &n.namespace {
                Some(prev) => Some(prefix_text(namespace, prev.as_str())),
                None => Some(namespace.to_owned()),
            };
            let new_node = Node {
                id: mint_node_id(),
                inputs: new_inputs,
                outputs: new_outputs,
                tags: dup_tags(&n.tags),
                namespace: new_namespace,
                func: NodeFunc { f: n.func.f.dup() },
            };
            mapped.push(new_node);
            proof {
                let m = mapped@[i as int];
                assert(renamed_node(m, ns[i as int], namespace@)) by {
                    assert(m.inputs.pairs() == n.inputs.pairs().map_values(
                        (|p: (Seq<char>, Seq<char>)| (
                            p.0,
                            (|x: Seq<char>| prefixed(namespace@, x))(p.1),
                        )),
                    ));
                    assert(forall|u: int|
                        0 <= u < m.inputs.pairs().len() ==> #[trigger] m.inputs.pairs()[u] == (
                            n.inputs.pairs()[u].0,
                            prefixed(namespace@, n.inputs.pairs()[u].1),
                        ));
                    assert(forall|u: int|
                        0 <= u < m.outputs.pairs().len() ==> #[trigger] m.outputs.pairs()[u] == (
                            n.outputs.pairs()[u].0,
                            prefixed(namespace@, n.outputs.pairs()[u].1),
                        ));
                }
            }
            i = i + 1;
        }
        proof {
            lemma_renamed_wiring(mapped@, ns, namespace@);
            lemma_topo_sorted_acyclic(ns);
            assert(!has_dup_outputs(mapped@));
            assert(!has_cycle_nodes(mapped@));
        }
        let r = Self::from_nodes(mapped.as_slice());
        proof {
            match &r {
                Ok(p) => {
                    let ord = choose|ord: Seq<int>| is_reordering(p@, mapped@, ord);
                    assert forall|k: int| 0 <= k < p@.len() implies renamed_node(
                        #[trigger] p@[k],
                        ns[ord[k]],
                        namespace@,
                    ) by {
                        assert(node_sim(p@[k], mapped@[ord[k]]));
                        assert(renamed_node(mapped@[ord[k]], ns[ord[k]], namespace@));
                    }
                    assert(is_renamed_reordering(p@, ns, ord, namespace@));
                },
                Err(_) => {
                    assert(false);
                },
            }
        }
        r
    }
}

} // verus!
