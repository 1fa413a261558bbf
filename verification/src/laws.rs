//! The library's laws: proved properties relating construction, execution,
//! surface queries and namespacing.

use vstd::prelude::*;

use crate::names::lemma_prefix_preserves_order;
use crate::names::lemma_sorted_unique;
use crate::names::lemma_prefix_injective;
use crate::names::prefixed;
use crate::names::strictly_sorted;
use crate::node::Node;
use crate::node::NodeCall;
use crate::semantics::all_outputs_set;
use crate::semantics::consumes;
use crate::semantics::edge;
use crate::semantics::fold_pairs;
use crate::semantics::has_dup_outputs;
use crate::semantics::inputs_set;
use crate::semantics::is_renamed_reordering;
use crate::semantics::is_reordering;
use crate::semantics::lemma_renamed_wiring;
use crate::semantics::lemma_reordering_surfaces;
use crate::semantics::lemma_unique_producer;
use crate::node::node_sim;
use crate::semantics::outputs_set;
use crate::semantics::pipeline_wf;
use crate::semantics::prefixed_set;
use crate::semantics::produces;
use crate::semantics::remap_pairs;
use crate::semantics::remap_view;
use crate::semantics::renamed_node;
use crate::semantics::run_spec;
use crate::semantics::some_consumer;
use crate::semantics::some_producer;
use crate::semantics::step_spec;
use crate::source::NodeSources;

verus! {

/// A node function that honors the execution engine's conventions: it reads
/// only declared local inputs, and it succeeds and produces every declared
/// local output whatever view it is given.
pub open spec fn node_total<T, F: NodeCall<T>>(n: Node<F>) -> bool {
    &&& n.func.f.reads() <= n.inputs.locals().to_set()
    &&& forall|m: Map<Seq<char>, T>|
        {
            &&& (#[trigger] n.func.f.apply(m)) is Ok
            &&& n.outputs.locals().to_set() <= n.func.f.apply(m)->Ok_0.dom()
        }
}

/// Every node of the pipeline is total.
pub open spec fn nodes_total<T, F: NodeCall<T>>(ns: Seq<Node<F>>) -> bool {
    forall|i: int| 0 <= i < ns.len() ==> node_total::<T, F>(#[trigger] ns[i])
}

/// Remapping succeeds when every external name is present, and only adds
/// keys.
proof fn lemma_remap_total<T>(pairs: Seq<(Seq<char>, Seq<char>)>, m: Map<Seq<char>, T>)
    requires
        forall|u: int| 0 <= u < pairs.len() ==> m.dom().contains((#[trigger] pairs[u]).1),
    ensures
        remap_pairs(pairs, m) is Ok,
        m.dom() <= remap_pairs(pairs, m)->Ok_0.dom(),
    decreases pairs.len(),
{
    if pairs.len() > 0 {
        let m1 = m.insert(pairs[0].0, m[pairs[0].1]);
        assert(forall|u: int|
            0 <= u < pairs.drop_first().len() ==> (#[trigger] pairs.drop_first()[u]) == pairs[u
                + 1]);
        lemma_remap_total(pairs.drop_first(), m1);
    }
}

/// Folding succeeds when every local name is present in the produced store;
/// the result holds the running state's keys plus the external names, other
/// entries untouched.
proof fn lemma_fold_total<T>(
    pairs: Seq<(Seq<char>, Seq<char>)>,
    produced: Map<Seq<char>, T>,
    st: Map<Seq<char>, T>,
)
    requires
        forall|u: int| 0 <= u < pairs.len() ==> produced.dom().contains((#[trigger] pairs[u]).0),
    ensures
        fold_pairs(pairs, produced, st) is Ok,
        forall|k: Seq<char>|
            fold_pairs(pairs, produced, st)->Ok_0.dom().contains(k) <==> (st.dom().contains(k)
                || exists|u: int| 0 <= u < pairs.len() && (#[trigger] pairs[u]).1 == k),
        forall|k: Seq<char>|
            !(exists|u: int| 0 <= u < pairs.len() && (#[trigger] pairs[u]).1 == k)
                && st.dom().contains(k) ==> fold_pairs(pairs, produced, st)->Ok_0[k] == st[k],
    decreases pairs.len(),
{
    if pairs.len() > 0 {
        let st1 = st.insert(pairs[0].1, produced[pairs[0].0]);
        let rest = pairs.drop_first();
        assert(forall|u: int| 0 <= u < rest.len() ==> (#[trigger] rest[u]) == pairs[u + 1]);
        lemma_fold_total(rest, produced, st1);
        let out = fold_pairs(pairs, produced, st)->Ok_0;
        assert forall|k: Seq<char>| out.dom().contains(k) implies (st.dom().contains(k) || exists|
            u: int,
        | 0 <= u < pairs.len() && (#[trigger] pairs[u]).1 == k) by {
            if !st.dom().contains(k) {
                if k == pairs[0].1 {
                    assert(pairs[0].1 == k);
                } else {
                    assert(!st1.dom().contains(k) || k == pairs[0].1);
                    let u = choose|u: int| 0 <= u < rest.len() && (#[trigger] rest[u]).1 == k;
                    assert(pairs[u + 1].1 == k);
                }
            }
        }
        assert forall|k: Seq<char>|
            (st.dom().contains(k) || exists|u: int|
                0 <= u < pairs.len() && (#[trigger] pairs[u]).1 == k) implies out.dom().contains(
            k,
        ) by {
            if st.dom().contains(k) || k == pairs[0].1 {
                assert(st1.dom().contains(k));
            } else {
                let u = choose|u: int| 0 <= u < pairs.len() && (#[trigger] pairs[u]).1 == k;
                assert(rest[u - 1].1 == k);
            }
        }
        assert forall|k: Seq<char>|
            !(exists|u: int| 0 <= u < pairs.len() && (#[trigger] pairs[u]).1 == k)
                && st.dom().contains(k) implies out[k] == st[k] by {
            assert(k != pairs[0].1);
            assert(st1.dom().contains(k) && st1[k] == st[k]);
            assert(!(exists|u: int| 0 <= u < rest.len() && (#[trigger] rest[u]).1 == k)) by {
                if exists|u: int| 0 <= u < rest.len() && (#[trigger] rest[u]).1 == k {
                    let u = choose|u: int| 0 <= u < rest.len() && (#[trigger] rest[u]).1 == k;
                    assert(pairs[u + 1].1 == k);
                }
            }
        }
    }
}

/// One step of a total node whose external inputs are all present: it
/// succeeds, adds exactly its declared external outputs, and leaves every
/// other entry unchanged.
proof fn lemma_step_total<T, F: NodeCall<T>>(n: Node<F>, st: Map<Seq<char>, T>)
    requires
        node_total::<T, F>(n),
        forall|u: int|
            0 <= u < n.inputs.externals().len() ==> st.dom().contains(
                #[trigger] n.inputs.externals()[u],
            ),
    ensures
        step_spec(n, st) is Ok,
        forall|k: Seq<char>|
            step_spec(n, st)->Ok_0.dom().contains(k) <==> (st.dom().contains(k)
                || n.outputs.externals().contains(k)),
        forall|k: Seq<char>|
            !n.outputs.externals().contains(k) && st.dom().contains(k) ==> step_spec(n, st)->Ok_0[k]
                == st[k],
{
    let pairs = n.inputs.pairs();
    assert(forall|u: int|
        0 <= u < pairs.len() ==> (#[trigger] pairs[u]).1 == n.inputs.externals()[u]);
    assert(forall|u: int| 0 <= u < pairs.len() ==> st.dom().contains((#[trigger] pairs[u]).1));
    lemma_remap_total(pairs, st);
    assert(remap_view(n.inputs, st) is Ok) by {
        match n.inputs {
            NodeSources::List(_) => {},
            NodeSources::Mapping(_) => {},
        }
    }
    let view = remap_view(n.inputs, st)->Ok_0;
    let produced = n.func.f.apply(view.restrict(n.func.f.reads()))->Ok_0;
    let opairs = n.outputs.pairs();
    assert(forall|u: int|
        0 <= u < opairs.len() ==> (#[trigger] opairs[u]).0 == n.outputs.locals()[u]);
    assert forall|u: int| 0 <= u < opairs.len() implies produced.dom().contains(
        (#[trigger] opairs[u]).0,
    ) by {
        assert(n.outputs.locals().to_set().contains(n.outputs.locals()[u]));
    }
    lemma_fold_total(opairs, produced, st);
    assert forall|k: Seq<char>| step_spec(n, st)->Ok_0.dom().contains(k) implies (
    st.dom().contains(k) || n.outputs.externals().contains(k)) by {
        if !st.dom().contains(k) {
            let u = choose|u: int| 0 <= u < opairs.len() && (#[trigger] opairs[u]).1 == k;
            assert(n.outputs.externals()[u] == k);
        }
    }
    assert forall|k: Seq<char>|
        (st.dom().contains(k) || n.outputs.externals().contains(k)) implies step_spec(
        n,
        st,
    )->Ok_0.dom().contains(k) by {
        if !st.dom().contains(k) {
            let u = choose|u: int|
                0 <= u < n.outputs.externals().len() && n.outputs.externals()[u] == k;
            assert((opairs[u]).1 == k);
        }
    }
    assert forall|k: Seq<char>|
        !n.outputs.externals().contains(k) && st.dom().contains(k) implies step_spec(
        n,
        st,
    )->Ok_0[k] == st[k] by {
        assert(!(exists|u: int| 0 <= u < opairs.len() && (#[trigger] opairs[u]).1 == k)) by {
            if exists|u: int| 0 <= u < opairs.len() && (#[trigger] opairs[u]).1 == k {
                let u = choose|u: int| 0 <= u < opairs.len() && (#[trigger] opairs[u]).1 == k;
                assert(n.outputs.externals()[u] == k);
            }
        }
    }
}

/// Dropping the first node shifts every declaration and edge by one.
proof fn lemma_drop_first_structure<F>(ns: Seq<Node<F>>)
    requires
        ns.len() > 0,
    ensures
        forall|p: int, nm: Seq<char>|
            0 <= p ==> #[trigger] produces(ns.drop_first(), p, nm) == produces(ns, p + 1, nm),
        forall|c: int, nm: Seq<char>|
            0 <= c ==> #[trigger] consumes(ns.drop_first(), c, nm) == consumes(ns, c + 1, nm),
        forall|p: int, c: int|
            0 <= p && 0 <= c ==> #[trigger] edge(ns.drop_first(), p, c) == edge(ns, p + 1, c + 1),
{
    let tail = ns.drop_first();
    assert(forall|p: int| 0 <= p < tail.len() ==> #[trigger] tail[p] == ns[p + 1]);
    assert forall|p: int, c: int| 0 <= p && 0 <= c implies #[trigger] edge(tail, p, c) == edge(
        ns,
        p + 1,
        c + 1,
    ) by {
        if edge(tail, p, c) {
            let nm = choose|nm: Seq<char>|
                #[trigger] produces(tail, p, nm) && consumes(tail, c, nm);
            assert(produces(ns, p + 1, nm) && consumes(ns, c + 1, nm));
        }
        if edge(ns, p + 1, c + 1) {
            let nm = choose|nm: Seq<char>|
                #[trigger] produces(ns, p + 1, nm) && consumes(ns, c + 1, nm);
            assert(produces(tail, p, nm) && consumes(tail, c, nm));
        }
    }
}

proof fn lemma_drop_first_wf<F>(ns: Seq<Node<F>>)
    requires
        ns.len() > 0,
        pipeline_wf(ns),
    ensures
        pipeline_wf(ns.drop_first()),
{
    let tail = ns.drop_first();
    assert(forall|p: int| 0 <= p < tail.len() ==> #[trigger] tail[p] == ns[p + 1]);
    lemma_drop_first_structure(ns);
    assert(!has_dup_outputs(tail)) by {
        if has_dup_outputs(tail) {
            let name = choose|name: Seq<char>| crate::semantics::dup_name(tail, name);
            let (p1, k1, p2, k2) = choose|p1: int, k1: int, p2: int, k2: int|
                {
                    &&& crate::semantics::is_out_decl(tail, p1, k1)
                    &&& crate::semantics::is_out_decl(tail, p2, k2)
                    &&& (p1 != p2 || k1 != k2)
                    &&& #[trigger] crate::semantics::out_name(tail, p1, k1) == name
                    &&& #[trigger] crate::semantics::out_name(tail, p2, k2) == name
                };
            assert(crate::semantics::out_name(ns, p1 + 1, k1) == name);
            assert(crate::semantics::out_name(ns, p2 + 1, k2) == name);
            assert(crate::semantics::dup_name(ns, name));
        }
    }
    assert forall|p: int, c: int| #[trigger] edge(tail, p, c) implies p < c by {
        assert(edge(ns, p + 1, c + 1));
    }
}

/// Law: a valid pipeline whose free inputs are present in the seed, and whose
/// node functions are total, runs to completion; the result's keys are the
/// seed's keys together with every pipeline output, and every seed entry that
/// no node outputs keeps its value.
pub proof fn lemma_run_total<T, F: NodeCall<T>>(ns: Seq<Node<F>>, st: Map<Seq<char>, T>)
    requires
        pipeline_wf(ns),
        nodes_total::<T, F>(ns),
        inputs_set(ns) <= st.dom(),
    ensures
        run_spec(ns, st) is Ok,
        run_spec(ns, st)->Ok_0.dom() == st.dom() + all_outputs_set(ns),
        forall|k: Seq<char>|
            st.dom().contains(k) && !all_outputs_set(ns).contains(k) ==> run_spec(ns, st)->Ok_0[k]
                == st[k],
    decreases ns.len(),
{
    if ns.len() == 0 {
        assert(run_spec(ns, st)->Ok_0.dom() =~= st.dom() + all_outputs_set(ns)) by {
            assert forall|k: Seq<char>| !all_outputs_set(ns).contains(k) by {
                if some_producer(ns, k) {
                    let p = choose|p: int| produces(ns, p, k);
                }
            }
        }
    } else {
        let head = ns[0];
        let tail = ns.drop_first();
        assert(forall|p: int| 0 <= p < tail.len() ==> #[trigger] tail[p] == ns[p + 1]);
        lemma_drop_first_structure(ns);
        lemma_drop_first_wf(ns);
        // The head's external inputs are all free, hence in the seed.
        assert forall|u: int| 0 <= u < head.inputs.externals().len() implies st.dom().contains(
            #[trigger] head.inputs.externals()[u],
        ) by {
            let nm = head.inputs.externals()[u];
            assert(consumes(ns, 0, nm));
            if some_producer(ns, nm) {
                let p = choose|p: int| produces(ns, p, nm);
                assert(edge(ns, p, 0));
            } else {
                assert(inputs_set(ns).contains(nm));
            }
        }
        assert(node_total::<T, F>(head));
        lemma_step_total::<T, F>(head, st);
        let st1 = step_spec(head, st)->Ok_0;
        // Free inputs of the tail are either free inputs of the whole
        // pipeline or outputs of the head.
        assert forall|k: Seq<char>| inputs_set(tail).contains(k) implies st1.dom().contains(k) by {
            if some_producer(ns, k) {
                let p = choose|p: int| produces(ns, p, k);
                if p == 0 {
                    assert(head.outputs.externals().contains(k));
                } else {
                    assert(produces(tail, p - 1, k));
                    assert(some_producer(tail, k));
                }
            } else {
                let c = choose|c: int| consumes(tail, c, k);
                assert(consumes(ns, c + 1, k));
                assert(inputs_set(ns).contains(k));
                assert(st.dom().contains(k));
            }
        }
        assert(nodes_total::<T, F>(tail));
        lemma_run_total::<T, F>(tail, st1);
        assert(run_spec(ns, st) == run_spec(tail, st1));
        let out = run_spec(ns, st)->Ok_0;
        assert(out.dom() =~= st.dom() + all_outputs_set(ns)) by {
            assert forall|k: Seq<char>| out.dom().contains(k) implies (st.dom() + all_outputs_set(
                ns,
            )).contains(k) by {
                if !st.dom().contains(k) {
                    if all_outputs_set(tail).contains(k) {
                        let p = choose|p: int| produces(tail, p, k);
                        assert(produces(ns, p + 1, k));
                    } else {
                        assert(st1.dom().contains(k));
                        assert(head.outputs.externals().contains(k));
                        assert(produces(ns, 0, k));
                    }
                }
            }
            assert forall|k: Seq<char>|
                (st.dom() + all_outputs_set(ns)).contains(k) implies out.dom().contains(k) by {
                if !st.dom().contains(k) {
                    let p = choose|p: int| produces(ns, p, k);
                    if p == 0 {
                        assert(st1.dom().contains(k));
                    } else {
                        assert(produces(tail, p - 1, k));
                        assert(all_outputs_set(tail).contains(k));
                    }
                }
            }
        }
        assert forall|k: Seq<char>|
            st.dom().contains(k) && !all_outputs_set(ns).contains(k) implies out[k] == st[k] by {
            assert(!head.outputs.externals().contains(k)) by {
                if head.outputs.externals().contains(k) {
                    assert(produces(ns, 0, k));
                }
            }
            assert(st1.dom().contains(k) && st1[k] == st[k]);
            assert(!all_outputs_set(tail).contains(k)) by {
                if some_producer(tail, k) {
                    let p = choose|p: int| produces(tail, p, k);
                    assert(produces(ns, p + 1, k));
                }
            }
        }
    }
}

/// Law: running a pipeline is deterministic — equal node sequences and equal
/// seed stores denote equal results, and the executable runner returns
/// exactly this denotation.
pub proof fn lemma_run_deterministic<T, F: NodeCall<T>>(
    ns: Seq<Node<F>>,
    st1: Map<Seq<char>, T>,
    st2: Map<Seq<char>, T>,
)
    requires
        st1 == st2,
    ensures
        run_spec(ns, st1) == run_spec(ns, st2),
{
}

/// Law: the free-input surface consists of declared node inputs, and the
/// terminal-output surface consists of declared node outputs.
pub proof fn lemma_surface_bounds<F>(ns: Seq<Node<F>>)
    ensures
        forall|nm: Seq<char>| inputs_set(ns).contains(nm) ==> #[trigger] some_consumer(ns, nm),
        forall|nm: Seq<char>|
            outputs_set(ns).contains(nm) ==> #[trigger] all_outputs_set(ns).contains(nm),
{
}

/// A strictly sorted listing of prefixed names is the prefixed listing of the
/// strictly sorted names.
proof fn lemma_prefixed_sorted_image(a: Seq<Seq<char>>, b: Seq<Seq<char>>, pfx: Seq<char>)
    requires
        strictly_sorted(a),
        strictly_sorted(b),
        a.to_set() == prefixed_set(b.to_set(), pfx),
    ensures
        a == b.map_values(|x: Seq<char>| prefixed(pfx, x)),
{
    let c = b.map_values(|x: Seq<char>| prefixed(pfx, x));
    assert(c.len() == b.len());
    assert(strictly_sorted(c)) by {
        assert forall|i: int, j: int| 0 <= i < j < c.len() implies crate::names::lex_lt(
            c[i],
            c[j],
        ) by {
            lemma_prefix_preserves_order(pfx, b[i], b[j]);
        }
    }
    assert(c.to_set() =~= prefixed_set(b.to_set(), pfx)) by {
        assert forall|nm: Seq<char>| c.to_set().contains(nm) implies prefixed_set(
            b.to_set(),
            pfx,
        ).contains(nm) by {
            let i = choose|i: int| 0 <= i < c.len() && c[i] == nm;
            assert(b.to_set().contains(b[i]));
            assert(nm == prefixed(pfx, b[i]));
        }
        assert forall|nm: Seq<char>|
            prefixed_set(b.to_set(), pfx).contains(nm) implies c.to_set().contains(nm) by {
            let x = choose|x: Seq<char>| b.to_set().contains(x) && nm == #[trigger] prefixed(
                pfx,
                x,
            );
            let i = choose|i: int| 0 <= i < b.len() && b[i] == x;
            assert(c[i] == nm);
        }
    }
    lemma_sorted_unique(a, c);
}

/// Law: namespacing a pipeline with prefix `pfx` turns each free input `n`
/// into `{pfx}.{n}` and each terminal output likewise: the sorted surface
/// listings of the namespaced pipeline are the prefixed sorted listings of
/// the original.
pub proof fn lemma_namespace_surfaces<F>(
    ms: Seq<Node<F>>,
    ns: Seq<Node<F>>,
    ord: Seq<int>,
    pfx: Seq<char>,
    ins_m: Seq<Seq<char>>,
    ins_n: Seq<Seq<char>>,
    outs_m: Seq<Seq<char>>,
    outs_n: Seq<Seq<char>>,
    all_m: Seq<Seq<char>>,
    all_n: Seq<Seq<char>>,
)
    requires
        is_renamed_reordering(ms, ns, ord, pfx),
        strictly_sorted(ins_m),
        ins_m.to_set() == inputs_set(ms),
        strictly_sorted(ins_n),
        ins_n.to_set() == inputs_set(ns),
        strictly_sorted(outs_m),
        outs_m.to_set() == outputs_set(ms),
        strictly_sorted(outs_n),
        outs_n.to_set() == outputs_set(ns),
        strictly_sorted(all_m),
        all_m.to_set() == all_outputs_set(ms),
        strictly_sorted(all_n),
        all_n.to_set() == all_outputs_set(ns),
    ensures
        ins_m == ins_n.map_values(|x: Seq<char>| prefixed(pfx, x)),
        outs_m == outs_n.map_values(|x: Seq<char>| prefixed(pfx, x)),
        all_m == all_n.map_values(|x: Seq<char>| prefixed(pfx, x)),
{
    let mid = Seq::new(ns.len(), |k: int| ns[ord[k]]);
    assert(forall|k: int| 0 <= k < ms.len() ==> renamed_node(#[trigger] ms[k], mid[k], pfx));
    assert(is_reordering(mid, ns, ord)) by {
        assert(forall|k: int| 0 <= k < mid.len() ==> node_sim(#[trigger] mid[k], ns[ord[k]]));
    }
    lemma_renamed_wiring(ms, mid, pfx);
    lemma_reordering_surfaces(mid, ns, ord);
    assert(inputs_set(ms) == prefixed_set(inputs_set(ns), pfx));
    assert(outputs_set(ms) == prefixed_set(outputs_set(ns), pfx));
    assert(all_outputs_set(ms) == prefixed_set(all_outputs_set(ns), pfx));
    lemma_prefixed_sorted_image(ins_m, ins_n, pfx);
    lemma_prefixed_sorted_image(outs_m, outs_n, pfx);
    lemma_prefixed_sorted_image(all_m, all_n, pfx);
}

/// When a node's output externals are distinct, folding writes each declared
/// value exactly.
proof fn lemma_fold_values<T>(
    pairs: Seq<(Seq<char>, Seq<char>)>,
    produced: Map<Seq<char>, T>,
    st: Map<Seq<char>, T>,
)
    requires
        forall|u: int| 0 <= u < pairs.len() ==> produced.dom().contains((#[trigger] pairs[u]).0),
        forall|u1: int, u2: int|
            0 <= u1 < u2 < pairs.len() ==> (#[trigger] pairs[u1]).1 != (#[trigger] pairs[u2]).1,
    ensures
        forall|u: int|
            0 <= u < pairs.len() ==> fold_pairs(pairs, produced, st)->Ok_0.contains_key(
                (#[trigger] pairs[u]).1,
            ) && fold_pairs(pairs, produced, st)->Ok_0[pairs[u].1] == produced[pairs[u].0],
    decreases pairs.len(),
{
    lemma_fold_total(pairs, produced, st);
    if pairs.len() > 0 {
        let st1 = st.insert(pairs[0].1, produced[pairs[0].0]);
        let rest = pairs.drop_first();
        assert(forall|u: int| 0 <= u < rest.len() ==> (#[trigger] rest[u]) == pairs[u + 1]);
        lemma_fold_values(rest, produced, st1);
        lemma_fold_total(rest, produced, st1);
        let out = fold_pairs(pairs, produced, st)->Ok_0;
        assert(out == fold_pairs(rest, produced, st1)->Ok_0);
        assert forall|u: int| 0 <= u < pairs.len() implies out.contains_key(
            (#[trigger] pairs[u]).1,
        ) && out[pairs[u].1] == produced[pairs[u].0] by {
            if u == 0 {
                assert(!(exists|v: int| 0 <= v < rest.len() && (#[trigger] rest[v]).1 == pairs[0].1))
                    by {
                    if exists|v: int| 0 <= v < rest.len() && (#[trigger] rest[v]).1 == pairs[0].1 {
                        let v = choose|v: int|
                            0 <= v < rest.len() && (#[trigger] rest[v]).1 == pairs[0].1;
                        assert(pairs[v + 1].1 == pairs[0].1);
                    }
                }
                assert(st1.contains_key(pairs[0].1));
                assert(out[pairs[0].1] == st1[pairs[0].1]);
            } else {
                assert(rest[u - 1] == pairs[u]);
            }
        }
    }
}

/// The two maps agree at `k`: present in one exactly when present in the
/// other, and then with equal values.
pub open spec fn maps_agree_at<T>(m1: Map<Seq<char>, T>, m2: Map<Seq<char>, T>, k: Seq<char>) -> bool {
    (m1.contains_key(k) == m2.contains_key(k)) && (m1.contains_key(k) ==> m1[k] == m2[k])
}

/// Two views that agree on a set covering every looked-up external name are
/// remapped to the same outcome, and the results agree on that set and on
/// every bound local name.
proof fn lemma_remap_agree<T>(
    pairs: Seq<(Seq<char>, Seq<char>)>,
    m1: Map<Seq<char>, T>,
    m2: Map<Seq<char>, T>,
    ex: Set<Seq<char>>,
)
    requires
        forall|u: int| 0 <= u < pairs.len() ==> ex.contains((#[trigger] pairs[u]).1),
        forall|k: Seq<char>| #[trigger] ex.contains(k) ==> maps_agree_at(m1, m2, k),
    ensures
        remap_pairs(pairs, m1) is Ok == remap_pairs(pairs, m2) is Ok,
        remap_pairs(pairs, m1) matches Err(n1) ==> remap_pairs(pairs, m2) == remap_pairs(
            pairs,
            m1,
        ),
        remap_pairs(pairs, m1) is Ok ==> forall|k: Seq<char>|
            (ex.contains(k) || pairs_locals(pairs).contains(k)) ==> #[trigger] maps_agree_at(
                remap_pairs(pairs, m1)->Ok_0,
                remap_pairs(pairs, m2)->Ok_0,
                k,
            ),
    decreases pairs.len(),
{
    if pairs.len() > 0 {
        let e0 = pairs[0].1;
        let l0 = pairs[0].0;
        assert(ex.contains(e0));
        assert(maps_agree_at(m1, m2, e0));
        if m1.contains_key(e0) {
            let m1n = m1.insert(l0, m1[e0]);
            let m2n = m2.insert(l0, m2[e0]);
            let rest = pairs.drop_first();
            assert(forall|u: int| 0 <= u < rest.len() ==> (#[trigger] rest[u]) == pairs[u + 1]);
            let exn = ex.insert(l0);
            assert(forall|u: int| 0 <= u < rest.len() ==> exn.contains((#[trigger] rest[u]).1));
            assert forall|k: Seq<char>| #[trigger] exn.contains(k) implies maps_agree_at(
                m1n,
                m2n,
                k,
            ) by {
                if k != l0 {
                    assert(ex.contains(k));
                    assert(maps_agree_at(m1, m2, k));
                }
            }
            lemma_remap_agree(rest, m1n, m2n, exn);
            if remap_pairs(pairs, m1) is Ok {
                assert forall|k: Seq<char>|
                    (ex.contains(k) || pairs_locals(pairs).contains(k)) implies
                #[trigger] maps_agree_at(
                    remap_pairs(pairs, m1)->Ok_0,
                    remap_pairs(pairs, m2)->Ok_0,
                    k,
                ) by {
                    if ex.contains(k) {
                        assert(exn.contains(k));
                        assert(maps_agree_at(
                            remap_pairs(rest, m1n)->Ok_0,
                            remap_pairs(rest, m2n)->Ok_0,
                            k,
                        ));
                    } else {
                        assert(pairs_locals(pairs).contains(k));
                        let u = choose|u: int|
                            0 <= u < pairs.len() && (#[trigger] pairs[u]).0 == k;
                        if u == 0 {
                            assert(exn.contains(k));
                        } else {
                            assert(rest[u - 1].0 == k);
                            assert(pairs_locals(rest).contains(k));
                        }
                        assert(maps_agree_at(
                            remap_pairs(rest, m1n)->Ok_0,
                            remap_pairs(rest, m2n)->Ok_0,
                            k,
                        ));
                    }
                }
            }
        }
    }
}

/// The local names bound by a pair list.
pub open spec fn pairs_locals(pairs: Seq<(Seq<char>, Seq<char>)>) -> Set<Seq<char>> {
    Set::new(|k: Seq<char>| exists|u: int| 0 <= u < pairs.len() && (#[trigger] pairs[u]).0 == k)
}

/// The set of external input names of a node.
pub open spec fn in_ext_set<F>(n: Node<F>) -> Set<Seq<char>> {
    n.inputs.externals().to_set()
}

/// The set of external output names of a node.
pub open spec fn out_ext_set<F>(n: Node<F>) -> Set<Seq<char>> {
    n.outputs.externals().to_set()
}

/// The view a node receives from a state (meaningful when remapping
/// succeeds).
pub open spec fn node_view<T, F: NodeCall<T>>(n: Node<F>, st: Map<Seq<char>, T>) -> Map<
    Seq<char>,
    T,
> {
    remap_view(n.inputs, st)->Ok_0
}

/// The store a node's function produces from a state (meaningful when the
/// step succeeds).
pub open spec fn node_produced<T, F: NodeCall<T>>(n: Node<F>, st: Map<Seq<char>, T>) -> Map<
    Seq<char>,
    T,
> {
    n.func.f.apply(node_view::<T, F>(n, st).restrict(n.func.f.reads()))->Ok_0
}

/// A total step writes exactly the produced value under each distinct
/// declared output.
proof fn lemma_step_values<T, F: NodeCall<T>>(n: Node<F>, st: Map<Seq<char>, T>)
    requires
        node_total::<T, F>(n),
        forall|u: int|
            0 <= u < n.inputs.externals().len() ==> st.dom().contains(
                #[trigger] n.inputs.externals()[u],
            ),
        forall|u1: int, u2: int|
            0 <= u1 < u2 < n.outputs.externals().len() ==> #[trigger] n.outputs.externals()[u1]
                != #[trigger] n.outputs.externals()[u2],
    ensures
        step_spec(n, st) is Ok,
        forall|u: int|
            0 <= u < n.outputs.pairs().len() ==> step_spec(n, st)->Ok_0.contains_key(
                (#[trigger] n.outputs.pairs()[u]).1,
            ) && step_spec(n, st)->Ok_0[n.outputs.pairs()[u].1] == node_produced::<T, F>(n, st)[
                n.outputs.pairs()[u].0
            ],
{
    lemma_step_total::<T, F>(n, st);
    let produced = node_produced::<T, F>(n, st);
    let opairs = n.outputs.pairs();
    assert(forall|u: int|
        0 <= u < opairs.len() ==> (#[trigger] opairs[u]).0 == n.outputs.locals()[u] && opairs[u].1
            == n.outputs.externals()[u]);
    assert forall|u: int| 0 <= u < opairs.len() implies produced.dom().contains(
        (#[trigger] opairs[u]).0,
    ) by {
        assert(n.outputs.locals().to_set().contains(n.outputs.locals()[u]));
    }
    assert(forall|u1: int, u2: int|
        0 <= u1 < u2 < opairs.len() ==> (#[trigger] opairs[u1]).1 != (#[trigger] opairs[u2]).1);
    lemma_fold_values(opairs, produced, st);
}

/// A node given two states that agree on its input externals computes the
/// same produced store.
proof fn lemma_produced_agree<T, F: NodeCall<T>>(
    n: Node<F>,
    st1: Map<Seq<char>, T>,
    st2: Map<Seq<char>, T>,
)
    requires
        node_total::<T, F>(n),
        forall|u: int|
            0 <= u < n.inputs.externals().len() ==> st1.dom().contains(
                #[trigger] n.inputs.externals()[u],
            ),
        forall|k: Seq<char>|
            #[trigger] in_ext_set(n).contains(k) ==> maps_agree_at(st1, st2, k),
    ensures
        node_produced::<T, F>(n, st1) == node_produced::<T, F>(n, st2),
{
    let pairs = n.inputs.pairs();
    assert(forall|u: int|
        0 <= u < pairs.len() ==> (#[trigger] pairs[u]).0 == n.inputs.locals()[u] && pairs[u].1
            == n.inputs.externals()[u]);
    assert forall|u: int| 0 <= u < pairs.len() implies in_ext_set(n).contains(
        (#[trigger] pairs[u]).1,
    ) by {
        assert(n.inputs.externals().to_set().contains(n.inputs.externals()[u]));
    }
    assert(forall|u: int|
        0 <= u < pairs.len() ==> st1.dom().contains((#[trigger] pairs[u]).1));
    let reads = n.func.f.reads();
    match n.inputs {
        NodeSources::List(_) => {
            assert(node_view::<T, F>(n, st1) == st1);
            assert(node_view::<T, F>(n, st2) == st2);
            assert forall|k: Seq<char>|
                #[trigger] st1.restrict(reads).dom().contains(k) implies st2.restrict(
                reads,
            ).dom().contains(k) && st1.restrict(reads)[k] == st2.restrict(reads)[k] by {
                lemma_list_read_is_external::<T, F>(n, k);
                assert(maps_agree_at(st1, st2, k));
            }
            assert forall|k: Seq<char>|
                #[trigger] st2.restrict(reads).dom().contains(k) implies st1.restrict(
                reads,
            ).dom().contains(k) by {
                lemma_list_read_is_external::<T, F>(n, k);
                assert(maps_agree_at(st1, st2, k));
            }
            assert(st1.restrict(reads) =~= st2.restrict(reads));
        },
        NodeSources::Mapping(_) => {
            lemma_remap_agree(pairs, st1, st2, in_ext_set(n));
            lemma_remap_total(pairs, st1);
            let v1 = remap_pairs(pairs, st1)->Ok_0;
            let v2 = remap_pairs(pairs, st2)->Ok_0;
            assert(node_view::<T, F>(n, st1) == v1);
            assert(node_view::<T, F>(n, st2) == v2);
            assert forall|k: Seq<char>|
                #[trigger] v1.restrict(reads).dom().contains(k) implies v2.restrict(
                reads,
            ).dom().contains(k) && v1.restrict(reads)[k] == v2.restrict(reads)[k] by {
                lemma_read_is_local::<T, F>(n, k);
                assert(maps_agree_at(v1, v2, k));
            }
            assert forall|k: Seq<char>|
                #[trigger] v2.restrict(reads).dom().contains(k) implies v1.restrict(
                reads,
            ).dom().contains(k) by {
                lemma_read_is_local::<T, F>(n, k);
                assert(maps_agree_at(v1, v2, k));
            }
            assert(v1.restrict(reads) =~= v2.restrict(reads));
        },
    }
}

/// A read name of a total node is one of its declared local names, which for
/// the list port form is also one of its external names.
proof fn lemma_list_read_is_external<T, F: NodeCall<T>>(n: Node<F>, k: Seq<char>)
    requires
        node_total::<T, F>(n),
    ensures
        n.func.f.reads().contains(k) ==> n.inputs.locals().to_set().contains(k),
        n.func.f.reads().contains(k) && !n.inputs.is_map() ==> in_ext_set(n).contains(k),
{
    if n.func.f.reads().contains(k) {
        assert(n.inputs.locals().to_set().contains(k));
        if !n.inputs.is_map() {
            let u = choose|u: int| 0 <= u < n.inputs.locals().len() && n.inputs.locals()[u] == k;
            assert(n.inputs.pairs()[u].0 == k);
            assert(n.inputs.pairs()[u].1 == n.inputs.externals()[u]);
            match n.inputs {
                NodeSources::List(_) => {
                    assert(n.inputs.pairs()[u].0 == n.inputs.pairs()[u].1);
                },
                NodeSources::Mapping(_) => {},
            }
            assert(n.inputs.externals().to_set().contains(n.inputs.externals()[u]));
        }
    }
}

/// A read name of a total node is among the local names its input pairs bind.
proof fn lemma_read_is_local<T, F: NodeCall<T>>(n: Node<F>, k: Seq<char>)
    requires
        node_total::<T, F>(n),
    ensures
        n.func.f.reads().contains(k) ==> pairs_locals(n.inputs.pairs()).contains(k),
{
    if n.func.f.reads().contains(k) {
        assert(n.inputs.locals().to_set().contains(k));
        let u = choose|u: int| 0 <= u < n.inputs.locals().len() && n.inputs.locals()[u] == k;
        assert(n.inputs.pairs()[u].0 == k);
    }
}

/// Two independent total nodes commute: stepping them in either order from
/// the same state reaches the same state.
proof fn lemma_step_commute<T, F: NodeCall<T>>(a: Node<F>, b: Node<F>, st: Map<Seq<char>, T>)
    requires
        node_total::<T, F>(a),
        node_total::<T, F>(b),
        forall|u: int|
            0 <= u < a.inputs.externals().len() ==> st.dom().contains(
                #[trigger] a.inputs.externals()[u],
            ),
        forall|u: int|
            0 <= u < b.inputs.externals().len() ==> st.dom().contains(
                #[trigger] b.inputs.externals()[u],
            ),
        forall|u1: int, u2: int|
            0 <= u1 < u2 < a.outputs.externals().len() ==> #[trigger] a.outputs.externals()[u1]
                != #[trigger] a.outputs.externals()[u2],
        forall|u1: int, u2: int|
            0 <= u1 < u2 < b.outputs.externals().len() ==> #[trigger] b.outputs.externals()[u1]
                != #[trigger] b.outputs.externals()[u2],
        out_ext_set(a).disjoint(out_ext_set(b)),
        out_ext_set(a).disjoint(in_ext_set(b)),
        out_ext_set(b).disjoint(in_ext_set(a)),
    ensures
        step_spec(a, st) is Ok,
        step_spec(b, st) is Ok,
        step_spec(b, step_spec(a, st)->Ok_0) is Ok,
        step_spec(a, step_spec(b, st)->Ok_0) is Ok,
        step_spec(a, step_spec(b, st)->Ok_0)->Ok_0 == step_spec(b, step_spec(a, st)->Ok_0)->Ok_0,
{
    lemma_step_total::<T, F>(a, st);
    lemma_step_total::<T, F>(b, st);
    lemma_step_values::<T, F>(a, st);
    lemma_step_values::<T, F>(b, st);
    let m_a = step_spec(a, st)->Ok_0;
    let m_b = step_spec(b, st)->Ok_0;
    assert(forall|u: int|
        0 <= u < a.inputs.externals().len() ==> m_b.dom().contains(
            #[trigger] a.inputs.externals()[u],
        ));
    assert(forall|u: int|
        0 <= u < b.inputs.externals().len() ==> m_a.dom().contains(
            #[trigger] b.inputs.externals()[u],
        ));
    lemma_step_total::<T, F>(a, m_b);
    lemma_step_total::<T, F>(b, m_a);
    lemma_step_values::<T, F>(a, m_b);
    lemma_step_values::<T, F>(b, m_a);
    // Each node computes the same values before and after the other's step.
    assert forall|k: Seq<char>|
        #[trigger] in_ext_set(a).contains(k) implies maps_agree_at(st, m_b, k) by {
        assert(!out_ext_set(b).contains(k));
        assert(!b.outputs.externals().contains(k));
    }
    lemma_produced_agree::<T, F>(a, st, m_b);
    assert forall|k: Seq<char>|
        #[trigger] in_ext_set(b).contains(k) implies maps_agree_at(st, m_a, k) by {
        assert(!out_ext_set(a).contains(k));
        assert(!a.outputs.externals().contains(k));
    }
    lemma_produced_agree::<T, F>(b, st, m_a);
    let f1 = step_spec(b, m_a)->Ok_0;
    let f2 = step_spec(a, m_b)->Ok_0;
    assert(f2 =~= f1) by {
        assert forall|k: Seq<char>| f1.contains_key(k) == f2.contains_key(k) by {
            assert(f1.dom().contains(k) <==> (m_a.dom().contains(k)
                || b.outputs.externals().contains(k)));
            assert(f2.dom().contains(k) <==> (m_b.dom().contains(k)
                || a.outputs.externals().contains(k)));
        }
        assert forall|k: Seq<char>| #[trigger] f1.contains_key(k) implies f1[k] == f2[k] by {
            if a.outputs.externals().contains(k) {
                assert(out_ext_set(a).contains(k));
                assert(!b.outputs.externals().contains(k));
                let u = choose|u: int|
                    0 <= u < a.outputs.externals().len() && a.outputs.externals()[u] == k;
                assert((a.outputs.pairs()[u]).1 == k);
                // written by a in both orders, with equal produced values
                assert(m_a.contains_key(k) && m_a[k] == node_produced::<T, F>(a, st)[
                    a.outputs.pairs()[u].0
                ]);
                assert(f1[k] == m_a[k]);
                assert(f2[k] == node_produced::<T, F>(a, m_b)[a.outputs.pairs()[u].0]);
            } else if b.outputs.externals().contains(k) {
                assert(out_ext_set(b).contains(k));
                assert(!a.outputs.externals().contains(k));
                let u = choose|u: int|
                    0 <= u < b.outputs.externals().len() && b.outputs.externals()[u] == k;
                assert((b.outputs.pairs()[u]).1 == k);
                assert(m_b.contains_key(k) && m_b[k] == node_produced::<T, F>(b, st)[
                    b.outputs.pairs()[u].0
                ]);
                assert(f2[k] == m_b[k]);
                assert(f1[k] == node_produced::<T, F>(b, m_a)[b.outputs.pairs()[u].0]);
            } else {
                assert(st.contains_key(k));
                assert(m_a[k] == st[k] && m_b[k] == st[k]);
                assert(f1[k] == m_a[k] && f2[k] == m_b[k]);
            }
        }
    }
}

/// Behavioral equality preserves totality.
proof fn lemma_total_sim<T, F: NodeCall<T>>(a: Node<F>, b: Node<F>)
    requires
        node_sim(a, b),
        node_total::<T, F>(b),
    ensures
        node_total::<T, F>(a),
{
    assert(a.inputs.pairs() == b.inputs.pairs());
    assert(a.inputs.locals() == b.inputs.locals());
    assert(a.outputs.locals() == b.outputs.locals());
}

/// Removing a node keeps validity: the survivors keep their relative order
/// and their declarations.
proof fn lemma_remove_wf<F>(ns: Seq<Node<F>>, j: int)
    requires
        pipeline_wf(ns),
        0 <= j < ns.len(),
    ensures
        pipeline_wf(ns.remove(j)),
        forall|p: int, nm: Seq<char>|
            0 <= p ==> #[trigger] produces(ns.remove(j), p, nm) == produces(
                ns,
                if p < j { p } else { p + 1 },
                nm,
            ),
        forall|c: int, nm: Seq<char>|
            0 <= c ==> #[trigger] consumes(ns.remove(j), c, nm) == consumes(
                ns,
                if c < j { c } else { c + 1 },
                nm,
            ),
{
    let rm = ns.remove(j);
    assert(forall|p: int| 0 <= p < j ==> #[trigger] rm[p] == ns[p]);
    assert(forall|p: int| j <= p < rm.len() ==> #[trigger] rm[p] == ns[p + 1]);
    assert forall|p: int, c: int| #[trigger] edge(rm, p, c) implies p < c by {
        let nm = choose|nm: Seq<char>| #[trigger] produces(rm, p, nm) && consumes(rm, c, nm);
        let sp: int = if p < j {
            p
        } else {
            p + 1
        };
        let sc: int = if c < j {
            c
        } else {
            c + 1
        };
        assert(produces(ns, sp, nm) && consumes(ns, sc, nm));
        assert(edge(ns, sp, sc));
    }
    assert(!has_dup_outputs(rm)) by {
        if has_dup_outputs(rm) {
            let name = choose|name: Seq<char>| crate::semantics::dup_name(rm, name);
            let (p1, k1, p2, k2) = choose|p1: int, k1: int, p2: int, k2: int|
                {
                    &&& crate::semantics::is_out_decl(rm, p1, k1)
                    &&& crate::semantics::is_out_decl(rm, p2, k2)
                    &&& (p1 != p2 || k1 != k2)
                    &&& #[trigger] crate::semantics::out_name(rm, p1, k1) == name
                    &&& #[trigger] crate::semantics::out_name(rm, p2, k2) == name
                };
            let s1: int = if p1 < j {
                p1
            } else {
                p1 + 1
            };
            let s2: int = if p2 < j {
                p2
            } else {
                p2 + 1
            };
            assert(crate::semantics::out_name(ns, s1, k1) == name);
            assert(crate::semantics::out_name(ns, s2, k2) == name);
            assert(crate::semantics::dup_name(ns, name));
        }
    }
}

/// Within a valid pipeline, each node's own output declarations are
/// pairwise distinct.
proof fn lemma_node_outputs_distinct<F>(ns: Seq<Node<F>>, i: int)
    requires
        !has_dup_outputs(ns),
        0 <= i < ns.len(),
    ensures
        forall|u1: int, u2: int|
            0 <= u1 < u2 < ns[i].outputs.externals().len() ==> #[trigger] ns[i].outputs.externals()[u1]
                != #[trigger] ns[i].outputs.externals()[u2],
{
    assert forall|u1: int, u2: int|
        0 <= u1 < u2 < ns[i].outputs.externals().len() implies #[trigger] ns[i].outputs.externals()[u1]
        != #[trigger] ns[i].outputs.externals()[u2] by {
        if ns[i].outputs.externals()[u1] == ns[i].outputs.externals()[u2] {
            assert(crate::semantics::out_name(ns, i, u1) == ns[i].outputs.externals()[u1]);
            assert(crate::semantics::out_name(ns, i, u2) == ns[i].outputs.externals()[u1]);
            assert(crate::semantics::dup_name(ns, ns[i].outputs.externals()[u1]));
        }
    }
}

/// A node with no incoming dependency has only free inputs.
proof fn lemma_source_inputs_free<F>(ns: Seq<Node<F>>, j: int)
    requires
        0 <= j < ns.len(),
        forall|p: int| !(#[trigger] edge(ns, p, j)),
    ensures
        forall|u: int|
            0 <= u < ns[j].inputs.externals().len() ==> inputs_set(ns).contains(
                #[trigger] ns[j].inputs.externals()[u],
            ),
{
    assert forall|u: int| 0 <= u < ns[j].inputs.externals().len() implies inputs_set(ns).contains(
        #[trigger] ns[j].inputs.externals()[u],
    ) by {
        let nm = ns[j].inputs.externals()[u];
        assert(consumes(ns, j, nm));
        if some_producer(ns, nm) {
            let p = choose|p: int| produces(ns, p, nm);
            assert(produces(ns, p, nm) && consumes(ns, j, nm));
            assert(edge(ns, p, j));
        }
    }
}

/// A node with no incoming dependency can run first: pulling it to the front
/// does not change what the pipeline denotes.
proof fn lemma_pull_source<T, F: NodeCall<T>>(ns: Seq<Node<F>>, j: int, st: Map<Seq<char>, T>)
    requires
        pipeline_wf(ns),
        nodes_total::<T, F>(ns),
        inputs_set(ns) <= st.dom(),
        0 <= j < ns.len(),
        forall|p: int| !(#[trigger] edge(ns, p, j)),
    ensures
        step_spec(ns[j], st) is Ok,
        run_spec(ns, st) == run_spec(ns.remove(j), step_spec(ns[j], st)->Ok_0),
    decreases j,
{
    let t = ns[j];
    lemma_source_inputs_free(ns, j);
    assert(forall|u: int|
        0 <= u < t.inputs.externals().len() ==> st.dom().contains(
            #[trigger] t.inputs.externals()[u],
        ));
    assert(node_total::<T, F>(t));
    lemma_step_total::<T, F>(t, st);
    let m_t = step_spec(t, st)->Ok_0;
    if j == 0 {
        assert(ns.remove(0) =~= ns.drop_first());
    } else {
        let h = ns[0];
        assert(node_total::<T, F>(h));
        assert forall|u: int| 0 <= u < h.inputs.externals().len() implies st.dom().contains(
            #[trigger] h.inputs.externals()[u],
        ) by {
            let nm = h.inputs.externals()[u];
            assert(consumes(ns, 0, nm));
            if some_producer(ns, nm) {
                let p = choose|p: int| produces(ns, p, nm);
                assert(edge(ns, p, 0));
            } else {
                assert(inputs_set(ns).contains(nm));
            }
        }
        lemma_step_total::<T, F>(h, st);
        let m0 = step_spec(h, st)->Ok_0;
        // h and t are independent.
        lemma_node_outputs_distinct(ns, 0);
        lemma_node_outputs_distinct(ns, j);
        assert(out_ext_set(h).disjoint(out_ext_set(t))) by {
            assert forall|nm: Seq<char>|
                !(out_ext_set(h).contains(nm) && out_ext_set(t).contains(nm)) by {
                if out_ext_set(h).contains(nm) && out_ext_set(t).contains(nm) {
                    assert(produces(ns, 0, nm) && produces(ns, j, nm));
                    lemma_unique_producer(ns, nm, 0, j);
                }
            }
        }
        assert(out_ext_set(h).disjoint(in_ext_set(t))) by {
            assert forall|nm: Seq<char>|
                !(out_ext_set(h).contains(nm) && in_ext_set(t).contains(nm)) by {
                if out_ext_set(h).contains(nm) && in_ext_set(t).contains(nm) {
                    assert(produces(ns, 0, nm) && consumes(ns, j, nm));
                    assert(edge(ns, 0, j));
                }
            }
        }
        assert(out_ext_set(t).disjoint(in_ext_set(h))) by {
            assert forall|nm: Seq<char>|
                !(out_ext_set(t).contains(nm) && in_ext_set(h).contains(nm)) by {
                if out_ext_set(t).contains(nm) && in_ext_set(h).contains(nm) {
                    assert(produces(ns, j, nm) && consumes(ns, 0, nm));
                    assert(edge(ns, j, 0));
                }
            }
        }
        lemma_step_commute::<T, F>(h, t, st);
        // The tail still satisfies every hypothesis, with the source at j-1.
        let tail = ns.drop_first();
        assert(forall|p: int| 0 <= p < tail.len() ==> #[trigger] tail[p] == ns[p + 1]);
        lemma_drop_first_structure(ns);
        lemma_drop_first_wf(ns);
        assert(nodes_total::<T, F>(tail));
        assert forall|k: Seq<char>| inputs_set(tail).contains(k) implies m0.dom().contains(k) by {
            if some_producer(ns, k) {
                let p = choose|p: int| produces(ns, p, k);
                if p == 0 {
                    assert(h.outputs.externals().contains(k));
                } else {
                    assert(produces(tail, p - 1, k));
                    assert(some_producer(tail, k));
                }
            } else {
                let c = choose|c: int| consumes(tail, c, k);
                assert(consumes(ns, c + 1, k));
                assert(inputs_set(ns).contains(k));
            }
        }
        assert forall|p: int| !(#[trigger] edge(tail, p, j - 1)) by {
            if edge(tail, p, j - 1) {
                assert(0 <= p);
                assert(edge(ns, p + 1, j));
            }
        }
        assert(tail[j - 1] == t);
        lemma_pull_source::<T, F>(tail, j - 1, m0);
        assert(run_spec(ns, st) == run_spec(tail, m0));
        assert(run_spec(tail, m0) == run_spec(
            tail.remove(j - 1),
            step_spec(t, m0)->Ok_0,
        ));
        assert(step_spec(t, m0)->Ok_0 == step_spec(h, m_t)->Ok_0);
        // The claimed right-hand side unfolds through the head.
        let rmj = ns.remove(j);
        assert(rmj[0] == h);
        assert(rmj.drop_first() =~= tail.remove(j - 1)) by {
            assert(forall|p: int|
                0 <= p < rmj.drop_first().len() ==> #[trigger] rmj.drop_first()[p] == rmj[p + 1]);
        }
        assert forall|u: int| 0 <= u < h.inputs.externals().len() implies m_t.dom().contains(
            #[trigger] h.inputs.externals()[u],
        ) by {
            assert(st.dom().contains(h.inputs.externals()[u]));
        }
        lemma_step_total::<T, F>(h, m_t);
        assert(run_spec(rmj, m_t) == run_spec(rmj.drop_first(), step_spec(h, m_t)->Ok_0));
    }
}

/// Reorderings compose.
proof fn lemma_reordering_compose<F>(
    a: Seq<Node<F>>,
    b: Seq<Node<F>>,
    c: Seq<Node<F>>,
    o_ab: Seq<int>,
    o_bc: Seq<int>,
)
    requires
        is_reordering(a, b, o_ab),
        is_reordering(b, c, o_bc),
    ensures
        is_reordering(a, c, Seq::new(o_ab.len() as nat, |k: int| o_bc[o_ab[k]])),
{
    let comp = Seq::new(o_ab.len() as nat, |k: int| o_bc[o_ab[k]]);
    assert forall|i: int| 0 <= i < c.len() implies #[trigger] crate::semantics::ord_hits(
        comp,
        i,
    ) by {
        assert(crate::semantics::ord_hits(o_bc, i));
        let k2 = choose|k2: int| 0 <= k2 < o_bc.len() && o_bc[k2] == i;
        assert(crate::semantics::ord_hits(o_ab, k2));
        let k1 = choose|k1: int| 0 <= k1 < o_ab.len() && o_ab[k1] == k2;
        assert(comp[k1] == i);
    }
    assert forall|k1: int, k2: int| 0 <= k1 < k2 < comp.len() implies #[trigger] comp[k1]
        != #[trigger] comp[k2] by {
        assert(o_ab[k1] != o_ab[k2]);
        if o_ab[k1] < o_ab[k2] {
        } else {
        }
    }
    assert forall|k: int| 0 <= k < a.len() implies node_sim(#[trigger] a[k], c[comp[k]]) by {
        assert(node_sim(a[k], b[o_ab[k]]));
        assert(node_sim(b[o_ab[k]], c[o_bc[o_ab[k]]]));
    }
}

/// Reorderings invert.
proof fn lemma_reordering_inverse<F>(a: Seq<Node<F>>, b: Seq<Node<F>>, o: Seq<int>)
    requires
        is_reordering(a, b, o),
    ensures
        is_reordering(
            b,
            a,
            Seq::new(o.len() as nat, |i: int| choose|k: int| 0 <= k < o.len() && o[k] == i),
        ),
{
    let inv = Seq::new(o.len() as nat, |i: int| choose|k: int| 0 <= k < o.len() && o[k] == i);
    assert forall|i: int| 0 <= i < inv.len() implies 0 <= #[trigger] inv[i] < o.len() && o[inv[i]]
        == i by {
        assert(crate::semantics::ord_hits(o, i));
        let k = choose|k: int| 0 <= k < o.len() && o[k] == i;
        assert(inv[i] == k);
    }
    assert forall|i1: int, i2: int| 0 <= i1 < i2 < inv.len() implies #[trigger] inv[i1]
        != #[trigger] inv[i2] by {
        assert(o[inv[i1]] == i1 && o[inv[i2]] == i2);
    }
    assert forall|k: int| 0 <= k < o.len() implies #[trigger] crate::semantics::ord_hits(
        inv,
        k,
    ) by {
        let i = o[k];
        assert(0 <= i < inv.len());
        assert(o[inv[i]] == i);
        if inv[i] != k {
            if inv[i] < k {
                assert(o[inv[i]] != o[k]);
            } else {
                assert(o[k] != o[inv[i]]);
            }
        }
        assert(inv[i] == k);
    }
    assert forall|i: int| 0 <= i < b.len() implies node_sim(#[trigger] b[i], a[inv[i]]) by {
        assert(node_sim(a[inv[i]], b[o[inv[i]]]));
        assert(o[inv[i]] == i);
    }
}

/// Confluence: two valid pipelines listing the same nodes run identically on
/// a seed that covers their free inputs, provided the node functions are
/// total.
proof fn lemma_run_reordered<T, F: NodeCall<T>>(
    ms: Seq<Node<F>>,
    ns: Seq<Node<F>>,
    ord: Seq<int>,
    st: Map<Seq<char>, T>,
)
    requires
        is_reordering(ms, ns, ord),
        pipeline_wf(ms),
        pipeline_wf(ns),
        nodes_total::<T, F>(ns),
        inputs_set(ns) <= st.dom(),
    ensures
        run_spec(ms, st) == run_spec(ns, st),
    decreases ms.len(),
{
    lemma_reordering_surfaces(ms, ns, ord);
    if ms.len() == 0 {
        assert(ns.len() == 0);
    } else {
        let j = ord[0];
        assert(0 <= j < ns.len());
        assert(node_sim(ms[0], ns[j]));
        assert forall|p: int| !(#[trigger] edge(ns, p, j)) by {
            if edge(ns, p, j) {
                assert(0 <= p < ns.len());
                assert(p < j);
                assert(crate::semantics::ord_hits(ord, p));
                let k = choose|k: int| 0 <= k < ord.len() && ord[k] == p;
                assert(k != 0);
                assert(edge(ms, k, 0) == edge(ns, ord[k], ord[0]));
                assert(edge(ms, k, 0));
                assert(false);
            }
        }
        lemma_pull_source::<T, F>(ns, j, st);
        lemma_source_inputs_free(ns, j);
        assert(forall|u: int|
            0 <= u < ns[j].inputs.externals().len() ==> st.dom().contains(
                #[trigger] ns[j].inputs.externals()[u],
            ));
        lemma_step_total::<T, F>(ns[j], st);
        let m1 = step_spec(ns[j], st)->Ok_0;
        crate::semantics::lemma_step_congruence(ms[0], ns[j], st);
        assert(run_spec(ms, st) == run_spec(ms.drop_first(), m1));
        let rm = ns.remove(j);
        let msd = ms.drop_first();
        assert(forall|p: int| 0 <= p < msd.len() ==> #[trigger] msd[p] == ms[p + 1]);
        assert(forall|p: int| 0 <= p < j ==> #[trigger] rm[p] == ns[p]);
        assert(forall|p: int| j <= p < rm.len() ==> #[trigger] rm[p] == ns[p + 1]);
        lemma_drop_first_wf(ms);
        lemma_remove_wf(ns, j);
        assert forall|p: int| 0 <= p < rm.len() implies node_total::<T, F>(#[trigger] rm[p]) by {
            if p < j {
                assert(rm[p] == ns[p]);
            } else {
                assert(rm[p] == ns[p + 1]);
            }
        }
        assert forall|k: Seq<char>| inputs_set(rm).contains(k) implies m1.dom().contains(k) by {
            if some_producer(ns, k) {
                let p = choose|p: int| produces(ns, p, k);
                if p == j {
                    assert(ns[j].outputs.externals().contains(k));
                } else {
                    let pr: int = if p < j {
                        p
                    } else {
                        p - 1
                    };
                    assert(produces(rm, pr, k)) by {
                        if p < j {
                            assert(rm[pr] == ns[p]);
                        } else {
                            assert(rm[pr] == ns[p]);
                        }
                    }
                    assert(some_producer(rm, k));
                }
            } else {
                let c = choose|c: int| consumes(rm, c, k);
                if c < j {
                    assert(consumes(ns, c, k));
                } else {
                    assert(consumes(ns, c + 1, k));
                }
                assert(some_consumer(ns, k));
                assert(inputs_set(ns).contains(k));
            }
        }
        let ordd = Seq::new((ord.len() - 1) as nat, |k: int| if ord[k + 1] < j { ord[k + 1] } else { ord[k + 1] - 1 });
        assert(is_reordering(msd, rm, ordd)) by {
            assert forall|k: int| 0 <= k < ordd.len() implies 0 <= #[trigger] ordd[k]
                < rm.len() by {
                assert(ord[k + 1] != ord[0]);
            }
            assert forall|k1: int, k2: int| 0 <= k1 < k2 < ordd.len() implies #[trigger] ordd[k1]
                != #[trigger] ordd[k2] by {
                assert(ord[k1 + 1] != ord[k2 + 1]);
            }
            assert forall|i: int| 0 <= i < rm.len() implies #[trigger] crate::semantics::ord_hits(
                ordd,
                i,
            ) by {
                let orig: int = if i < j {
                    i
                } else {
                    i + 1
                };
                assert(orig != j);
                assert(crate::semantics::ord_hits(ord, orig));
                let k = choose|k: int| 0 <= k < ord.len() && ord[k] == orig;
                assert(k != 0);
                assert(ordd[k - 1] == i);
            }
            assert forall|k: int| 0 <= k < msd.len() implies node_sim(
                #[trigger] msd[k],
                rm[ordd[k]],
            ) by {
                assert(node_sim(ms[k + 1], ns[ord[k + 1]]));
                if ord[k + 1] < j {
                    assert(rm[ordd[k]] == ns[ord[k + 1]]);
                } else {
                    assert(rm[ordd[k]] == ns[ord[k + 1]]);
                }
            }
        }
        lemma_run_reordered::<T, F>(msd, rm, ordd, m1);
    }
}

/// Law: building a pipeline from any permutation of the same nodes yields the
/// same run behavior — on any seed covering the free inputs, with total node
/// functions, the two validated pipelines denote the same result.
pub proof fn lemma_permutation_confluence<T, F: NodeCall<T>>(
    built: Seq<Node<F>>,
    built_perm: Seq<Node<F>>,
    base: Seq<Node<F>>,
    perm: Seq<Node<F>>,
    o_built: Seq<int>,
    o_perm: Seq<int>,
    o_built_perm: Seq<int>,
    st: Map<Seq<char>, T>,
)
    requires
        is_reordering(built, base, o_built),
        is_reordering(perm, base, o_perm),
        is_reordering(built_perm, perm, o_built_perm),
        pipeline_wf(built),
        pipeline_wf(built_perm),
        nodes_total::<T, F>(base),
        inputs_set(base) <= st.dom(),
    ensures
        run_spec(built_perm, st) == run_spec(built, st),
{
    lemma_reordering_compose(built_perm, perm, base, o_built_perm, o_perm);
    let o_bp_base = Seq::new(o_built_perm.len() as nat, |k: int| o_perm[o_built_perm[k]]);
    lemma_reordering_inverse(built, base, o_built);
    let inv = Seq::new(
        o_built.len() as nat,
        |i: int| choose|k: int| 0 <= k < o_built.len() && o_built[k] == i,
    );
    lemma_reordering_compose(built_perm, base, built, o_bp_base, inv);
    let o_total = Seq::new(o_bp_base.len() as nat, |k: int| inv[o_bp_base[k]]);
    assert(nodes_total::<T, F>(built)) by {
        assert forall|k: int| 0 <= k < built.len() implies node_total::<T, F>(
            #[trigger] built[k],
        ) by {
            lemma_total_sim::<T, F>(built[k], base[o_built[k]]);
        }
    }
    lemma_reordering_surfaces(built, base, o_built);
    lemma_run_reordered::<T, F>(built_perm, built, o_total, st);
}

/// `sm` is `sn` with every key qualified by `pfx`: it holds exactly the
/// prefixed keys, with the original values.
pub open spec fn store_renamed<T>(
    sm: Map<Seq<char>, T>,
    sn: Map<Seq<char>, T>,
    pfx: Seq<char>,
) -> bool {
    &&& forall|k: Seq<char>|
        sn.contains_key(k) ==> sm.contains_key(#[trigger] prefixed(pfx, k)) && sm[prefixed(pfx, k)]
            == sn[k]
    &&& forall|km: Seq<char>|
        #[trigger] sm.contains_key(km) ==> exists|k: Seq<char>|
            sn.contains_key(k) && km == #[trigger] prefixed(pfx, k)
}

/// Under renaming, presence of a prefixed key in the renamed store matches
/// presence of the key in the original.
proof fn lemma_store_renamed_at<T>(
    sm: Map<Seq<char>, T>,
    sn: Map<Seq<char>, T>,
    pfx: Seq<char>,
    k: Seq<char>,
)
    requires
        store_renamed(sm, sn, pfx),
    ensures
        sm.contains_key(prefixed(pfx, k)) == sn.contains_key(k),
        sn.contains_key(k) ==> sm[prefixed(pfx, k)] == sn[k],
{
    if sm.contains_key(prefixed(pfx, k)) {
        let k2 = choose|k2: Seq<char>|
            sn.contains_key(k2) && prefixed(pfx, k) == #[trigger] prefixed(pfx, k2);
        lemma_prefix_injective(pfx, k, k2);
    }
}

/// Remapping never touches keys that are not bound local names.
proof fn lemma_remap_frame<T>(pairs: Seq<(Seq<char>, Seq<char>)>, m: Map<Seq<char>, T>)
    ensures
        remap_pairs(pairs, m) is Ok ==> forall|k: Seq<char>|
            !pairs_locals(pairs).contains(k) ==> #[trigger] maps_agree_at(
                remap_pairs(pairs, m)->Ok_0,
                m,
                k,
            ),
    decreases pairs.len(),
{
    if pairs.len() > 0 && m.contains_key(pairs[0].1) {
        let m1 = m.insert(pairs[0].0, m[pairs[0].1]);
        let rest = pairs.drop_first();
        assert(forall|u: int| 0 <= u < rest.len() ==> (#[trigger] rest[u]) == pairs[u + 1]);
        lemma_remap_frame(rest, m1);
        if remap_pairs(pairs, m) is Ok {
            assert forall|k: Seq<char>| !pairs_locals(pairs).contains(k) implies
            #[trigger] maps_agree_at(remap_pairs(pairs, m)->Ok_0, m, k) by {
                assert(!pairs_locals(rest).contains(k)) by {
                    if pairs_locals(rest).contains(k) {
                        let u = choose|u: int|
                            0 <= u < rest.len() && (#[trigger] rest[u]).0 == k;
                        assert(pairs[u + 1].0 == k);
                    }
                }
                assert(maps_agree_at(remap_pairs(rest, m1)->Ok_0, m1, k));
                assert(k != pairs[0].0);
            }
        }
    }
}

/// Namespacing `n` with `pfx` is unambiguous: no local input name looks like
/// a prefixed external, and the mapping form reads no name bound by an
/// earlier pair.
pub open spec fn prefix_safe<F>(n: Node<F>, pfx: Seq<char>) -> bool {
    &&& forall|v: int, u: int|
        0 <= v < n.inputs.pairs().len() && 0 <= u < n.inputs.pairs().len() ==> (
        #[trigger] n.inputs.pairs()[v]).0 != prefixed(pfx, (#[trigger] n.inputs.pairs()[u]).1)
    &&& n.inputs.is_map() ==> forall|v: int, u: int|
        0 <= v < u < n.inputs.pairs().len() ==> (#[trigger] n.inputs.pairs()[v]).0 != (
        #[trigger] n.inputs.pairs()[u]).1
}

/// Remapping the renamed pairs over the renamed store mirrors remapping the
/// original pairs over the original store.
proof fn lemma_remap_renamed_map<T>(
    q: Seq<(Seq<char>, Seq<char>)>,
    qm: Seq<(Seq<char>, Seq<char>)>,
    sm: Map<Seq<char>, T>,
    sn: Map<Seq<char>, T>,
    pfx: Seq<char>,
)
    requires
        qm.len() == q.len(),
        forall|u: int|
            0 <= u < q.len() ==> #[trigger] qm[u] == ((#[trigger] q[u]).0, prefixed(pfx, q[u].1)),
        forall|u: int|
            0 <= u < q.len() ==> sm.contains_key(prefixed(pfx, (#[trigger] q[u]).1))
                == sn.contains_key(q[u].1) && (sn.contains_key(q[u].1) ==> sm[prefixed(
                pfx,
                q[u].1,
            )] == sn[q[u].1]),
        forall|v: int, u: int|
            0 <= v < q.len() && 0 <= u < q.len() ==> (#[trigger] q[v]).0 != prefixed(
                pfx,
                (#[trigger] q[u]).1,
            ),
        forall|v: int, u: int| 0 <= v < u < q.len() ==> (#[trigger] q[v]).0 != (#[trigger] q[u]).1,
    ensures
        remap_pairs(qm, sm) is Ok == remap_pairs(q, sn) is Ok,
        remap_pairs(q, sn) matches Err(e) ==> remap_pairs(qm, sm) == Err::<Map<Seq<char>, T>, Seq<char>>(
            prefixed(pfx, e),
        ),
        remap_pairs(q, sn) is Ok ==> forall|k: Seq<char>|
            #[trigger] pairs_locals(q).contains(k) ==> remap_pairs(qm, sm)->Ok_0.contains_key(k)
                && remap_pairs(q, sn)->Ok_0.contains_key(k) && remap_pairs(qm, sm)->Ok_0[k]
                == remap_pairs(q, sn)->Ok_0[k],
    decreases q.len(),
{
    if q.len() > 0 {
        let l0 = q[0].0;
        let e0 = q[0].1;
        assert(qm[0] == (l0, prefixed(pfx, e0)));
        if !sn.contains_key(e0) {
            assert(remap_pairs(q, sn) == Err::<Map<Seq<char>, T>, Seq<char>>(e0));
            assert(!sm.contains_key(prefixed(pfx, e0)));
            assert(remap_pairs(qm, sm) == Err::<Map<Seq<char>, T>, Seq<char>>(prefixed(pfx, e0)));
        } else {
            let v0 = sn[e0];
            assert(sm[prefixed(pfx, e0)] == v0);
            let snn = sn.insert(l0, v0);
            let smn = sm.insert(l0, v0);
            let rest = q.drop_first();
            let restm = qm.drop_first();
            assert(forall|u: int| 0 <= u < rest.len() ==> (#[trigger] rest[u]) == q[u + 1]);
            assert(forall|u: int| 0 <= u < restm.len() ==> (#[trigger] restm[u]) == qm[u + 1]);
            assert forall|u: int| 0 <= u < rest.len() implies smn.contains_key(
                prefixed(pfx, (#[trigger] rest[u]).1),
            ) == snn.contains_key(rest[u].1) && (snn.contains_key(rest[u].1) ==> smn[prefixed(
                pfx,
                rest[u].1,
            )] == snn[rest[u].1]) by {
                assert(rest[u] == q[u + 1]);
                assert(l0 != prefixed(pfx, q[u + 1].1));
                assert(l0 != q[u + 1].1);
            }
            lemma_remap_renamed_map(rest, restm, smn, snn, pfx);
            assert(remap_pairs(q, sn) == remap_pairs(rest, snn));
            assert(remap_pairs(qm, sm) == remap_pairs(restm, smn));
            if remap_pairs(q, sn) is Ok {
                lemma_remap_frame(rest, snn);
                lemma_remap_frame(restm, smn);
                assert forall|k: Seq<char>| #[trigger] pairs_locals(q).contains(k) implies
                remap_pairs(qm, sm)->Ok_0.contains_key(k) && remap_pairs(
                    q,
                    sn,
                )->Ok_0.contains_key(k) && remap_pairs(qm, sm)->Ok_0[k] == remap_pairs(
                    q,
                    sn,
                )->Ok_0[k] by {
                    if pairs_locals(rest).contains(k) {
                    } else {
                        let u = choose|u: int| 0 <= u < q.len() && (#[trigger] q[u]).0 == k;
                        assert(u == 0) by {
                            if u > 0 {
                                assert(rest[u - 1].0 == k);
                                assert(pairs_locals(rest).contains(k));
                            }
                        }
                        assert(!pairs_locals(restm).contains(l0)) by {
                            if pairs_locals(restm).contains(l0) {
                                let w = choose|w: int|
                                    0 <= w < restm.len() && (#[trigger] restm[w]).0 == l0;
                                assert(restm[w] == qm[w + 1]);
                                assert(qm[w + 1].0 == q[w + 1].0);
                                assert(rest[w].0 == l0);
                                assert(pairs_locals(rest).contains(l0));
                            }
                        }
                        assert(maps_agree_at(remap_pairs(rest, snn)->Ok_0, snn, l0));
                        assert(maps_agree_at(remap_pairs(restm, smn)->Ok_0, smn, l0));
                        assert(snn.contains_key(l0) && snn[l0] == v0);
                        assert(smn.contains_key(l0) && smn[l0] == v0);
                    }
                }
            }
        }
    }
}

/// Remapping the promoted list pairs over the renamed store binds every name
/// to its original value.
proof fn lemma_remap_renamed_list<T>(
    q: Seq<(Seq<char>, Seq<char>)>,
    qm: Seq<(Seq<char>, Seq<char>)>,
    sm: Map<Seq<char>, T>,
    sn: Map<Seq<char>, T>,
    pfx: Seq<char>,
)
    requires
        qm.len() == q.len(),
        forall|u: int| 0 <= u < q.len() ==> (#[trigger] q[u]).0 == q[u].1,
        forall|u: int|
            0 <= u < q.len() ==> #[trigger] qm[u] == ((#[trigger] q[u]).0, prefixed(pfx, q[u].1)),
        forall|u: int|
            0 <= u < q.len() ==> sm.contains_key(prefixed(pfx, (#[trigger] q[u]).1))
                == sn.contains_key(q[u].1) && (sn.contains_key(q[u].1) ==> sm[prefixed(
                pfx,
                q[u].1,
            )] == sn[q[u].1]),
        forall|v: int, u: int|
            0 <= v < q.len() && 0 <= u < q.len() ==> (#[trigger] q[v]).0 != prefixed(
                pfx,
                (#[trigger] q[u]).1,
            ),
        forall|u: int| 0 <= u < q.len() ==> sn.contains_key((#[trigger] q[u]).1),
    ensures
        remap_pairs(qm, sm) is Ok,
        forall|k: Seq<char>|
            #[trigger] pairs_locals(q).contains(k) ==> remap_pairs(qm, sm)->Ok_0.contains_key(k)
                && sn.contains_key(k) && remap_pairs(qm, sm)->Ok_0[k] == sn[k],
    decreases q.len(),
{
    if q.len() > 0 {
        let l0 = q[0].0;
        let e0 = q[0].1;
        assert(l0 == e0);
        assert(sn.contains_key(e0));
        let v0 = sn[e0];
        assert(sm.contains_key(prefixed(pfx, e0)) && sm[prefixed(pfx, e0)] == v0);
        let smn = sm.insert(l0, v0);
        let rest = q.drop_first();
        let restm = qm.drop_first();
        assert(forall|u: int| 0 <= u < rest.len() ==> (#[trigger] rest[u]) == q[u + 1]);
        assert(forall|u: int| 0 <= u < restm.len() ==> (#[trigger] restm[u]) == qm[u + 1]);
        assert forall|u: int| 0 <= u < rest.len() implies smn.contains_key(
            prefixed(pfx, (#[trigger] rest[u]).1),
        ) == sn.contains_key(rest[u].1) && (sn.contains_key(rest[u].1) ==> smn[prefixed(
            pfx,
            rest[u].1,
        )] == sn[rest[u].1]) by {
            assert(rest[u] == q[u + 1]);
            assert(l0 != prefixed(pfx, q[u + 1].1));
        }
        lemma_remap_renamed_list(rest, restm, smn, sn, pfx);
        assert(remap_pairs(qm, sm) == remap_pairs(restm, smn));
        lemma_remap_frame(restm, smn);
        assert forall|k: Seq<char>| #[trigger] pairs_locals(q).contains(k) implies remap_pairs(
            qm,
            sm,
        )->Ok_0.contains_key(k) && sn.contains_key(k) && remap_pairs(qm, sm)->Ok_0[k] == sn[k] by {
            if pairs_locals(rest).contains(k) {
            } else {
                let u = choose|u: int| 0 <= u < q.len() && (#[trigger] q[u]).0 == k;
                assert(u == 0) by {
                    if u > 0 {
                        assert(rest[u - 1].0 == k);
                        assert(pairs_locals(rest).contains(k));
                    }
                }
                assert(!pairs_locals(restm).contains(l0)) by {
                    if pairs_locals(restm).contains(l0) {
                        let w = choose|w: int|
                            0 <= w < restm.len() && (#[trigger] restm[w]).0 == l0;
                        assert(restm[w] == qm[w + 1]);
                        assert(qm[w + 1].0 == q[w + 1].0);
                        assert(rest[w].0 == l0);
                        assert(pairs_locals(rest).contains(l0));
                    }
                }
                assert(maps_agree_at(remap_pairs(restm, smn)->Ok_0, smn, l0));
                assert(smn.contains_key(l0) && smn[l0] == v0);
            }
        }
    }
}

/// A renamed node steps on the renamed store exactly as the original steps
/// on the original store, writing the prefixed keys.
proof fn lemma_step_renamed<T, F: NodeCall<T>>(
    m: Node<F>,
    n: Node<F>,
    pfx: Seq<char>,
    sm: Map<Seq<char>, T>,
    sn: Map<Seq<char>, T>,
)
    requires
        renamed_node(m, n, pfx),
        node_total::<T, F>(n),
        prefix_safe(n, pfx),
        store_renamed(sm, sn, pfx),
        forall|u: int|
            0 <= u < n.inputs.externals().len() ==> sn.dom().contains(
                #[trigger] n.inputs.externals()[u],
            ),
        forall|u1: int, u2: int|
            0 <= u1 < u2 < n.outputs.externals().len() ==> #[trigger] n.outputs.externals()[u1]
                != #[trigger] n.outputs.externals()[u2],
    ensures
        step_spec(n, sn) is Ok,
        step_spec(m, sm) is Ok,
        store_renamed(step_spec(m, sm)->Ok_0, step_spec(n, sn)->Ok_0, pfx),
{
    let q = n.inputs.pairs();
    let qm = m.inputs.pairs();
    assert(forall|u: int|
        0 <= u < q.len() ==> (#[trigger] q[u]).0 == n.inputs.locals()[u] && q[u].1
            == n.inputs.externals()[u]);
    assert(forall|u: int|
        0 <= u < q.len() ==> #[trigger] qm[u] == ((#[trigger] q[u]).0, prefixed(pfx, q[u].1)));
    // The renamed node is total too.
    assert(node_total::<T, F>(m)) by {
        assert(m.func.f == n.func.f);
        assert(m.inputs.locals() =~= n.inputs.locals()) by {
            assert(forall|u: int|
                0 <= u < qm.len() ==> #[trigger] m.inputs.locals()[u] == qm[u].0);
        }
        assert(m.outputs.locals() =~= n.outputs.locals()) by {
            assert(forall|u: int|
                0 <= u < m.outputs.pairs().len() ==> #[trigger] m.outputs.locals()[u]
                    == m.outputs.pairs()[u].0 && m.outputs.pairs()[u].0 == n.outputs.pairs()[u].0
                    && n.outputs.pairs()[u].0 == n.outputs.locals()[u]);
        }
    }
    lemma_step_total::<T, F>(n, sn);
    lemma_step_values::<T, F>(n, sn);
    // The renamed node's externals are present in the renamed store.
    assert(forall|u: int|
        0 <= u < m.inputs.externals().len() ==> #[trigger] m.inputs.externals()[u] == qm[u].1);
    assert forall|u: int| 0 <= u < m.inputs.externals().len() implies sm.dom().contains(
        #[trigger] m.inputs.externals()[u],
    ) by {
        lemma_store_renamed_at(sm, sn, pfx, q[u].1);
        assert(sn.contains_key(q[u].1));
    }
    assert forall|u1: int, u2: int|
        0 <= u1 < u2 < m.outputs.externals().len() implies #[trigger] m.outputs.externals()[u1]
        != #[trigger] m.outputs.externals()[u2] by {
        assert(m.outputs.externals()[u1] == m.outputs.pairs()[u1].1);
        assert(m.outputs.pairs()[u1].1 == prefixed(pfx, n.outputs.pairs()[u1].1));
        assert(m.outputs.pairs()[u2].1 == prefixed(pfx, n.outputs.pairs()[u2].1));
        if m.outputs.externals()[u1] == m.outputs.externals()[u2] {
            lemma_prefix_injective(pfx, n.outputs.pairs()[u1].1, n.outputs.pairs()[u2].1);
            assert(n.outputs.externals()[u1] == n.outputs.externals()[u2]);
        }
    }
    lemma_step_total::<T, F>(m, sm);
    lemma_step_values::<T, F>(m, sm);
    // The two node functions see the same restricted view.
    let reads = n.func.f.reads();
    assert forall|u: int| 0 <= u < q.len() implies sm.contains_key(
        prefixed(pfx, (#[trigger] q[u]).1),
    ) == sn.contains_key(q[u].1) && (sn.contains_key(q[u].1) ==> sm[prefixed(pfx, q[u].1)]
        == sn[q[u].1]) by {
        lemma_store_renamed_at(sm, sn, pfx, q[u].1);
    }
    let vm = remap_pairs(qm, sm)->Ok_0;
    assert(remap_view(m.inputs, sm) == remap_pairs(qm, sm));
    assert(node_produced::<T, F>(m, sm) == node_produced::<T, F>(n, sn)) by {
        match n.inputs {
            NodeSources::List(_) => {
                lemma_remap_renamed_list(q, qm, sm, sn, pfx);
                assert(remap_view(n.inputs, sn) == Ok::<Map<Seq<char>, T>, Seq<char>>(sn));
                assert(vm.restrict(reads) =~= sn.restrict(reads)) by {
                    assert forall|k: Seq<char>|
                        #[trigger] vm.restrict(reads).dom().contains(k) implies sn.restrict(
                        reads,
                    ).dom().contains(k) && vm.restrict(reads)[k] == sn.restrict(reads)[k] by {
                        lemma_read_is_local::<T, F>(n, k);
                        assert(pairs_locals(q).contains(k));
                        assert(vm.contains_key(k) && sn.contains_key(k) && vm[k] == sn[k]);
                    }
                    assert forall|k: Seq<char>|
                        #[trigger] sn.restrict(reads).dom().contains(k) implies vm.restrict(
                        reads,
                    ).dom().contains(k) by {
                        lemma_read_is_local::<T, F>(n, k);
                        assert(pairs_locals(q).contains(k));
                        assert(vm.contains_key(k));
                    }
                }
            },
            NodeSources::Mapping(_) => {
                assert(forall|v: int, u: int|
                    0 <= v < u < q.len() ==> (#[trigger] q[v]).0 != (#[trigger] q[u]).1);
                lemma_remap_renamed_map(q, qm, sm, sn, pfx);
                lemma_remap_total(q, sn);
                assert(remap_view(n.inputs, sn) == remap_pairs(q, sn));
                let vn = remap_pairs(q, sn)->Ok_0;
                assert(vm.restrict(reads) =~= vn.restrict(reads)) by {
                    assert forall|k: Seq<char>|
                        #[trigger] vm.restrict(reads).dom().contains(k) implies vn.restrict(
                        reads,
                    ).dom().contains(k) && vm.restrict(reads)[k] == vn.restrict(reads)[k] by {
                        lemma_read_is_local::<T, F>(n, k);
                        assert(pairs_locals(q).contains(k));
                        assert(vm.contains_key(k) && vn.contains_key(k) && vm[k] == vn[k]);
                    }
                    assert forall|k: Seq<char>|
                        #[trigger] vn.restrict(reads).dom().contains(k) implies vm.restrict(
                        reads,
                    ).dom().contains(k) by {
                        lemma_read_is_local::<T, F>(n, k);
                        assert(pairs_locals(q).contains(k));
                        assert(vm.contains_key(k));
                    }
                }
            },
        }
        assert(m.func.f.reads() == reads);
    }
    // Folding writes the same values under prefixed keys.
    let produced = node_produced::<T, F>(n, sn);
    let on = n.outputs.pairs();
    let om = m.outputs.pairs();
    assert(forall|u: int|
        0 <= u < on.len() ==> #[trigger] om[u] == ((#[trigger] on[u]).0, prefixed(pfx, on[u].1)));
    assert(forall|u: int|
        0 <= u < on.len() ==> (#[trigger] on[u]).1 == n.outputs.externals()[u]);
    assert(forall|u: int|
        0 <= u < om.len() ==> (#[trigger] om[u]).1 == m.outputs.externals()[u]);
    let rn = step_spec(n, sn)->Ok_0;
    let rm = step_spec(m, sm)->Ok_0;
    assert forall|k: Seq<char>| rn.contains_key(k) implies rm.contains_key(
        #[trigger] prefixed(pfx, k),
    ) && rm[prefixed(pfx, k)] == rn[k] by {
        if n.outputs.externals().contains(k) {
            let u = choose|u: int|
                0 <= u < n.outputs.externals().len() && n.outputs.externals()[u] == k;
            assert(on[u].1 == k);
            assert(rn[k] == produced[on[u].0]);
            assert(om[u].1 == prefixed(pfx, k));
            assert(m.outputs.externals()[u] == prefixed(pfx, k));
            assert(m.outputs.externals().contains(prefixed(pfx, k)));
            assert(rm.contains_key(prefixed(pfx, k)));
            assert(rm[prefixed(pfx, k)] == node_produced::<T, F>(m, sm)[om[u].0]);
        } else {
            assert(sn.contains_key(k));
            assert(rn[k] == sn[k]);
            lemma_store_renamed_at(sm, sn, pfx, k);
            assert(sm.contains_key(prefixed(pfx, k)));
            assert(rm.contains_key(prefixed(pfx, k)));
            assert(!m.outputs.externals().contains(prefixed(pfx, k))) by {
                if m.outputs.externals().contains(prefixed(pfx, k)) {
                    let u = choose|u: int|
                        0 <= u < m.outputs.externals().len() && m.outputs.externals()[u]
                            == prefixed(pfx, k);
                    assert(om[u].1 == prefixed(pfx, k));
                    assert(prefixed(pfx, on[u].1) == prefixed(pfx, k));
                    lemma_prefix_injective(pfx, on[u].1, k);
                    assert(n.outputs.externals().contains(k));
                }
            }
            assert(rm[prefixed(pfx, k)] == sm[prefixed(pfx, k)]);
        }
    }
    assert forall|km: Seq<char>| #[trigger] rm.contains_key(km) implies exists|k: Seq<char>|
        rn.contains_key(k) && km == #[trigger] prefixed(pfx, k) by {
        if sm.contains_key(km) {
            let k = choose|k: Seq<char>|
                sn.contains_key(k) && km == #[trigger] prefixed(pfx, k);
            assert(rn.contains_key(k));
        } else {
            assert(m.outputs.externals().contains(km));
            let u = choose|u: int|
                0 <= u < m.outputs.externals().len() && m.outputs.externals()[u] == km;
            assert(om[u].1 == km);
            assert(km == prefixed(pfx, on[u].1));
            assert(n.outputs.externals().contains(on[u].1));
            assert(rn.contains_key(on[u].1));
        }
    }
}

/// Renaming preserves totality.
proof fn lemma_total_renamed<T, F: NodeCall<T>>(m: Node<F>, n: Node<F>, pfx: Seq<char>)
    requires
        renamed_node(m, n, pfx),
        node_total::<T, F>(n),
    ensures
        node_total::<T, F>(m),
{
    assert(m.func.f == n.func.f);
    assert(m.inputs.locals() =~= n.inputs.locals()) by {
        assert(forall|u: int|
            0 <= u < m.inputs.pairs().len() ==> #[trigger] m.inputs.locals()[u]
                == m.inputs.pairs()[u].0 && m.inputs.pairs()[u].0 == n.inputs.pairs()[u].0
                && n.inputs.pairs()[u].0 == n.inputs.locals()[u]);
    }
    assert(m.outputs.locals() =~= n.outputs.locals()) by {
        assert(forall|u: int|
            0 <= u < m.outputs.pairs().len() ==> #[trigger] m.outputs.locals()[u]
                == m.outputs.pairs()[u].0 && m.outputs.pairs()[u].0 == n.outputs.pairs()[u].0
                && n.outputs.pairs()[u].0 == n.outputs.locals()[u]);
    }
}

/// A pipeline renamed node-for-node runs on the renamed seed exactly as the
/// original runs on the original seed, holding the prefixed keys.
proof fn lemma_run_renamed<T, F: NodeCall<T>>(
    ms: Seq<Node<F>>,
    ns: Seq<Node<F>>,
    pfx: Seq<char>,
    sm: Map<Seq<char>, T>,
    sn: Map<Seq<char>, T>,
)
    requires
        ms.len() == ns.len(),
        forall|k: int| 0 <= k < ns.len() ==> renamed_node(#[trigger] ms[k], ns[k], pfx),
        pipeline_wf(ns),
        nodes_total::<T, F>(ns),
        inputs_set(ns) <= sn.dom(),
        forall|k: int| 0 <= k < ns.len() ==> prefix_safe(#[trigger] ns[k], pfx),
        store_renamed(sm, sn, pfx),
    ensures
        run_spec(ns, sn) is Ok,
        run_spec(ms, sm) is Ok,
        store_renamed(run_spec(ms, sm)->Ok_0, run_spec(ns, sn)->Ok_0, pfx),
    decreases ns.len(),
{
    if ns.len() > 0 {
        let hn = ns[0];
        let hm = ms[0];
        assert forall|u: int| 0 <= u < hn.inputs.externals().len() implies sn.dom().contains(
            #[trigger] hn.inputs.externals()[u],
        ) by {
            let nm = hn.inputs.externals()[u];
            assert(consumes(ns, 0, nm));
            if some_producer(ns, nm) {
                let p = choose|p: int| produces(ns, p, nm);
                assert(edge(ns, p, 0));
            } else {
                assert(inputs_set(ns).contains(nm));
            }
        }
        lemma_node_outputs_distinct(ns, 0);
        assert(node_total::<T, F>(hn));
        lemma_step_renamed::<T, F>(hm, hn, pfx, sm, sn);
        lemma_step_total::<T, F>(hn, sn);
        let m0n = step_spec(hn, sn)->Ok_0;
        let m0m = step_spec(hm, sm)->Ok_0;
        let tn = ns.drop_first();
        let tm = ms.drop_first();
        assert(forall|p: int| 0 <= p < tn.len() ==> #[trigger] tn[p] == ns[p + 1]);
        assert(forall|p: int| 0 <= p < tm.len() ==> #[trigger] tm[p] == ms[p + 1]);
        lemma_drop_first_structure(ns);
        lemma_drop_first_wf(ns);
        assert(nodes_total::<T, F>(tn));
        assert forall|k: Seq<char>| inputs_set(tn).contains(k) implies m0n.dom().contains(k) by {
            if some_producer(ns, k) {
                let p = choose|p: int| produces(ns, p, k);
                if p == 0 {
                    assert(hn.outputs.externals().contains(k));
                } else {
                    assert(produces(tn, p - 1, k));
                    assert(some_producer(tn, k));
                }
            } else {
                let c = choose|c: int| consumes(tn, c, k);
                assert(consumes(ns, c + 1, k));
                assert(inputs_set(ns).contains(k));
            }
        }
        lemma_run_renamed::<T, F>(tm, tn, pfx, m0m, m0n);
        assert(run_spec(ns, sn) == run_spec(tn, m0n));
        assert(run_spec(ms, sm) == run_spec(tm, m0m));
    }
}

/// Law: namespacing commutes with execution. Run the namespaced pipeline on
/// the seed whose keys are the prefixed keys of the original seed, and every
/// entry of the original result — outputs and carried-through seed values —
/// appears under its prefixed name with the same value.
pub proof fn lemma_namespace_run<T, F: NodeCall<T>>(
    ms: Seq<Node<F>>,
    ns: Seq<Node<F>>,
    ord: Seq<int>,
    pfx: Seq<char>,
    sm: Map<Seq<char>, T>,
    sn: Map<Seq<char>, T>,
)
    requires
        is_renamed_reordering(ms, ns, ord, pfx),
        pipeline_wf(ms),
        pipeline_wf(ns),
        nodes_total::<T, F>(ns),
        inputs_set(ns) <= sn.dom(),
        forall|k: int| 0 <= k < ns.len() ==> prefix_safe(#[trigger] ns[k], pfx),
        store_renamed(sm, sn, pfx),
    ensures
        run_spec(ns, sn) is Ok,
        run_spec(ms, sm) is Ok,
        forall|k: Seq<char>|
            run_spec(ns, sn)->Ok_0.contains_key(k) ==> run_spec(ms, sm)->Ok_0.contains_key(
                #[trigger] prefixed(pfx, k),
            ) && run_spec(ms, sm)->Ok_0[prefixed(pfx, k)] == run_spec(ns, sn)->Ok_0[k],
{
    let inv = Seq::new(ord.len() as nat, |i: int| choose|k: int| 0 <= k < ord.len() && ord[k] == i);
    assert forall|i: int| 0 <= i < inv.len() implies 0 <= #[trigger] inv[i] < ord.len() && ord[inv[i]]
        == i by {
        assert(crate::semantics::ord_hits(ord, i));
        let k = choose|k: int| 0 <= k < ord.len() && ord[k] == i;
        assert(inv[i] == k);
    }
    let msa = Seq::new(ns.len() as nat, |i: int| ms[inv[i]]);
    assert forall|i: int| 0 <= i < ns.len() implies renamed_node(#[trigger] msa[i], ns[i], pfx) by {
        assert(renamed_node(ms[inv[i]], ns[ord[inv[i]]], pfx));
        assert(ord[inv[i]] == i);
    }
    // The aligned copy is itself a valid pipeline.
    lemma_renamed_wiring(msa, ns, pfx);
    assert(pipeline_wf(msa)) by {
        assert forall|p: int, c: int| #[trigger] edge(msa, p, c) implies p < c by {
            assert(edge(ns, p, c));
        }
    }
    // `ms` lists the aligned copy's nodes in its own order.
    assert(is_reordering(ms, msa, ord)) by {
        assert forall|k: int| 0 <= k < ms.len() implies node_sim(#[trigger] ms[k], msa[ord[k]]) by {
            assert(0 <= ord[k] < inv.len());
            assert(ord[inv[ord[k]]] == ord[k]);
            assert(inv[ord[k]] == k) by {
                if inv[ord[k]] != k {
                    if inv[ord[k]] < k {
                        assert(ord[inv[ord[k]]] != ord[k]);
                    } else {
                        assert(ord[k] != ord[inv[ord[k]]]);
                    }
                }
            }
            assert(msa[ord[k]] == ms[k]);
        }
    }
    assert(nodes_total::<T, F>(msa)) by {
        assert forall|i: int| 0 <= i < msa.len() implies node_total::<T, F>(#[trigger] msa[i]) by {
            lemma_total_renamed::<T, F>(msa[i], ns[i], pfx);
        }
    }
    assert(inputs_set(msa) <= sm.dom()) by {
        assert forall|km: Seq<char>| inputs_set(msa).contains(km) implies sm.dom().contains(
            km,
        ) by {
            assert(inputs_set(msa) == crate::semantics::prefixed_set(inputs_set(ns), pfx));
            let k = choose|k: Seq<char>|
                inputs_set(ns).contains(k) && km == #[trigger] prefixed(pfx, k);
            assert(sn.contains_key(k));
        }
    }
    lemma_run_reordered::<T, F>(ms, msa, ord, sm);
    lemma_run_renamed::<T, F>(msa, ns, pfx, sm, sn);
}

} // verus!
