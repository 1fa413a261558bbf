//! Nodes: a unit of computation with declared input and output ports.

use vstd::prelude::*;

use crate::container::Container;
use crate::container::ContainerData;
use crate::source::ns_eq;
use crate::source::NodeSources;
use crate::Context;
use crate::ErrorView;
use crate::QupidoResult;
use crate::Tag;

verus! {

/// The mathematical image of a node function's result: the produced store's
/// content, or the error's view.
pub open spec fn call_view<T>(r: QupidoResult<Container<T>>) -> Result<
    Map<Seq<char>, T>,
    ErrorView,
> {
    match r {
        Ok(c) => Ok(c@),
        Err(e) => Err(e@),
    }
}

/// A node's computation, supplied by the user of the library.
///
/// The pipeline treats a node function as pure: what it returns — success or
/// failure, and every produced value — is a mathematical function (`apply`)
/// of the values of the local names it reads (`reads`), and of nothing else.
/// The library cannot check a foreign implementation against this contract;
/// an implementation that reads undeclared names or behaves differently on
/// equal inputs voids the pipeline's guarantees, exactly as the execution
/// engine's conventions demand.
///
/// The two specification members exist for verification only and take no part
/// at run time; an unverified implementation may leave their bodies
/// unreachable.
pub trait NodeCall<T>: Sized {
    /// The local input names the computation consults.
    spec fn reads(&self) -> Set<Seq<char>>;

    /// The computation's meaning: the store it produces — or the error it
    /// fails with — as a function of the values of the names it reads.
    spec fn apply(&self, inputs: Map<Seq<char>, T>) -> Result<Map<Seq<char>, T>, ErrorView>;

    /// Runs the computation against a store holding its inputs under their
    /// local names.
    fn call(&self, ctx: &Context<T>) -> (r: QupidoResult<Container<T>>)
        requires
            ctx.inputs.wf(),
        ensures
            call_view(r) == self.apply(ctx.inputs@.restrict(self.reads())),
            r matches Ok(c) ==> c.wf(),
    ;
}

/// The callable held by a node.
#[derive(Debug)]
pub struct NodeFunc<F> {
    pub f: F,
}

/// A unit of computation: an identity, input and output port declarations,
/// the function, and metadata.
#[derive(Debug)]
pub struct Node<F> {
    pub id: u128,
    pub inputs: NodeSources,
    pub outputs: NodeSources,
    pub tags: Vec<Tag>,
    pub namespace: Option<String>,
    pub func: NodeFunc<F>,
}

/// Behavioral equality of two nodes: same identity, ports, metadata and
/// function value.
pub open spec fn node_sim<F>(a: Node<F>, b: Node<F>) -> bool {
    &&& a.id == b.id
    &&& ns_eq(a.inputs, b.inputs)
    &&& ns_eq(a.outputs, b.outputs)
    &&& a.tags@ == b.tags@
    &&& a.namespace == b.namespace
    &&& a.func.f == b.func.f
}

/// Relies on uuid::Uuid::new_v4 for a fresh random node identifier; nothing
/// is promised of the value.
#[verifier::external_body]
pub(crate) fn mint_node_id() -> u128 {
    uuid::Uuid::new_v4().as_u128()
}

/// Copies a tag vector, preserving the values.
pub(crate) fn dup_tags(v: &Vec<Tag>) -> (r: Vec<Tag>)
    ensures
        r@ == v@,
{
    let mut r: Vec<Tag> = Vec::new();
    let mut i: usize = 0;
    while i < v.len()
        invariant
            i <= v.len(),
            r@.len() == i,
            forall|j: int| 0 <= j < i ==> #[trigger] r@[j] == v@[j],
        decreases v.len() - i,
    {
        r.push(v[i].dup());
        i = i + 1;
    }
    proof {
        assert(r@ =~= v@);
    }
    r
}

impl<F> Node<F> {
    /// Builds a node with a fresh identity, no tags and no namespace.
    pub fn new(inputs: NodeSources, outputs: NodeSources, func: F) -> (r: Node<F>)
        ensures
            r.inputs == inputs,
            r.outputs == outputs,
            r.func.f == func,
            r.tags@ == Seq::<Tag>::empty(),
            r.namespace is None,
    {
        Node {
            id: mint_node_id(),
            inputs,
            outputs,
            tags: Vec::new(),
            namespace: None,
            func: NodeFunc { f: func },
        }
    }

    /// Appends a tag; metadata only.
    pub fn tag(self, simple_tag: &str) -> (r: Node<F>)
        ensures
            r.id == self.id,
            r.inputs == self.inputs,
            r.outputs == self.outputs,
            r.namespace == self.namespace,
            r.func.f == self.func.f,
            r.tags@.len() == self.tags@.len() + 1,
            r.tags@.drop_last() == self.tags@,
            r.tags@.last()@ == simple_tag@,
    {
        let mut s = self;
        s.tags.push(crate::tag(simple_tag));
        proof {
            assert(s.tags@.drop_last() =~= self.tags@);
        }
        s
    }
}

impl<F: ContainerData> Node<F> {
    /// Behavior-preserving copy.
    pub fn dup(&self) -> (r: Node<F>)
        ensures
            node_sim(r, *self),
    {
        let namespace = match &self.namespace {
            Some(s) => Some(s.clone()),
            None => None,
        };
        Node {
            id: self.id,
            inputs: self.inputs.dup(),
            outputs: self.outputs.dup(),
            tags: dup_tags(&self.tags),
            namespace,
            func: NodeFunc { f: self.func.f.dup() },
        }
    }
}

} // verus!
