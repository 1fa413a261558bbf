//! Typed dataflow pipelines: named data stores, nodes with declared input and
//! output ports, and validated directed-acyclic pipelines that execute their
//! nodes sequentially in topological order.

use vstd::prelude::*;

pub mod container;
pub mod graph;
pub mod laws;
pub mod names;
pub mod node;
pub mod pipeline;
pub mod semantics;
pub mod source;

pub use container::Container;
pub use container::ContainerData;
pub use node::Node;
pub use node::NodeCall;
pub use node::NodeFunc;
pub use pipeline::Pipeline;
pub use source::id;
pub use source::NodeSources;
pub use source::Source;

verus! {

/// Mathematical image of a [`QupidoError`]: the same variants with the name
/// payloads abstracted to character sequences, so contracts can compare
/// errors without depending on `String` identity.
pub enum ErrorView {
    DataNotFound(Seq<char>),
    InvalidPipeline,
    DuplicateData(Seq<char>),
    NodeNotFound,
}

/// The error taxonomy shared by every fallible operation of the library.
#[derive(Debug, Clone)]
pub enum QupidoError {
    /// A runtime lookup missed the store, or a node failed to produce a
    /// declared output.
    DataNotFound(String),
    /// The producer/consumer wiring of a pipeline contains a cycle.
    InvalidPipeline,
    /// Two nodes declare the same external output, or a strict insert hit an
    /// already-present key.
    DuplicateData(String),
    /// Internal graph bookkeeping failed; unreachable once validation passes.
    NodeNotFound,
}

impl View for QupidoError {
    type V = ErrorView;

    open spec fn view(&self) -> ErrorView {
        match self {
            QupidoError::DataNotFound(s) => ErrorView::DataNotFound(s@),
            QupidoError::InvalidPipeline => ErrorView::InvalidPipeline,
            QupidoError::DuplicateData(s) => ErrorView::DuplicateData(s@),
            QupidoError::NodeNotFound => ErrorView::NodeNotFound,
        }
    }
}

pub type QupidoResult<T> = Result<T, QupidoError>;

/// A free-form label attached to a node; metadata only, never consulted by
/// validation or execution.
#[derive(Debug)]
pub enum Tag {
    Tag(String),
}

impl View for Tag {
    type V = Seq<char>;

    open spec fn view(&self) -> Seq<char> {
        match self {
            Tag::Tag(s) => s@,
        }
    }
}

impl Tag {
    /// Value-preserving copy.
    pub fn dup(&self) -> (r: Tag)
        ensures
            r == *self,
    {
        match self {
            Tag::Tag(s) => Tag::Tag(s.clone()),
        }
    }
}

/// Builds a [`Tag`] from its text.
pub fn tag(t: &str) -> (r: Tag)
    ensures
        r@ == t@,
{
    Tag::Tag(t.to_owned())
}

/// The argument handed to a node function: a store holding the running state
/// with the node's declared inputs remapped to their local names.
pub struct Context<T> {
    pub inputs: Container<T>,
}

} // verus!
