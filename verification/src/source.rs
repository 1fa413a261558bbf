//! Names for data slots and the port declarations of a node.

use vstd::prelude::*;

verus! {

/// An opaque string name for a data slot. Two sources are equal exactly when
/// their text is equal.
#[derive(Debug)]
pub enum Source {
    Id(String),
}

impl View for Source {
    type V = Seq<char>;

    open spec fn view(&self) -> Seq<char> {
        match self {
            Source::Id(s) => s@,
        }
    }
}

impl Source {
    /// The name's text.
    pub fn get_id(&self) -> (r: String)
        ensures
            r@ == self@,
    {
        match self {
            Source::Id(s) => s.clone(),
        }
    }

    /// The name's text, borrowed.
    pub fn as_str(&self) -> (r: &str)
        ensures
            r@ == self@,
    {
        match self {
            Source::Id(s) => s.as_str(),
        }
    }

    /// Value-preserving copy.
    pub fn dup(&self) -> (r: Source)
        ensures
            r == *self,
    {
        match self {
            Source::Id(s) => Source::Id(s.clone()),
        }
    }
}

impl PartialEq for Source {
    fn eq(&self, other: &Source) -> bool {
        match (self, other) {
            (Source::Id(a), Source::Id(b)) => *a == *b,
        }
    }
}

impl vstd::std_specs::cmp::PartialEqSpecImpl for Source {
    open spec fn obeys_eq_spec() -> bool {
        true
    }

    open spec fn eq_spec(&self, other: &Source) -> bool {
        self@ == other@
    }
}

/// Builds a [`Source`] from its text.
pub fn id(s: &str) -> (r: Source)
    ensures
        r@ == s@,
{
    Source::Id(s.to_owned())
}

/// The view of each name in a sequence of sources.
pub open spec fn views_of(s: Seq<Source>) -> Seq<Seq<char>> {
    s.map_values(|x: Source| x@)
}

/// The declaration of a node's input or output surface: either a plain list
/// of names, used both locally and externally, or a mapping from a node-local
/// name to the external name under which the data lives in the store.
#[derive(Debug)]
pub enum NodeSources {
    List(Vec<Source>),
    Mapping(Vec<(Source, Source)>),
}

impl NodeSources {
    /// Whether this is the mapping form, whose inputs are remapped (and
    /// checked for presence) before the node function runs.
    pub open spec fn is_map(&self) -> bool {
        match self {
            NodeSources::List(_) => false,
            NodeSources::Mapping(_) => true,
        }
    }

    /// The (local, external) name pairs declared by this port set, in
    /// declaration order. The list form pairs every name with itself.
    pub open spec fn pairs(&self) -> Seq<(Seq<char>, Seq<char>)> {
        match self {
            NodeSources::List(l) => l@.map_values(|x: Source| (x@, x@)),
            NodeSources::Mapping(m) => m@.map_values(|p: (Source, Source)| (p.0@, p.1@)),
        }
    }

    /// The node-local names, in declaration order.
    pub open spec fn locals(&self) -> Seq<Seq<char>> {
        self.pairs().map_values(|p: (Seq<char>, Seq<char>)| p.0)
    }

    /// The external names, in declaration order.
    pub open spec fn externals(&self) -> Seq<Seq<char>> {
        self.pairs().map_values(|p: (Seq<char>, Seq<char>)| p.1)
    }

    /// The external names this port set reads from the store.
    pub fn inputs(&self) -> (r: Vec<Source>)
        ensures
            views_of(r@) == self.externals(),
    {
        self.externals_vec()
    }

    /// The external names this port set writes to the store.
    pub fn outputs(&self) -> (r: Vec<Source>)
        ensures
            views_of(r@) == self.externals(),
    {
        self.externals_vec()
    }

    fn externals_vec(&self) -> (r: Vec<Source>)
        ensures
            views_of(r@) == self.externals(),
    {
        match self {
            NodeSources::List(l) => {
                let r = dup_sources(l);
                proof {
                    assert(views_of(r@) =~= self.externals());
                }
                r
            },
            NodeSources::Mapping(m) => {
                let mut r: Vec<Source> = Vec::new();
                let mut i: usize = 0;
                while i < m.len()
                    invariant
                        i <= m.len(),
                        r@.len() == i,
                        forall|j: int| 0 <= j < i ==> #[trigger] r@[j]@ == m@[j].1@,
                    decreases m.len() - i,
                {
                    r.push(m[i].1.dup());
                    i = i + 1;
                }
                proof {
                    assert(views_of(r@) =~= self.externals());
                }
                r
            },
        }
    }

    /// Value-preserving copy: same variant, same name pairs.
    pub fn dup(&self) -> (r: NodeSources)
        ensures
            ns_eq(r, *self),
    {
        match self {
            NodeSources::List(l) => {
                let r = NodeSources::List(dup_sources(l));
                proof {
                    assert(r.pairs() =~= self.pairs());
                }
                r
            },
            NodeSources::Mapping(m) => {
                let mut v: Vec<(Source, Source)> = Vec::new();
                let mut i: usize = 0;
                while i < m.len()
                    invariant
                        i <= m.len(),
                        v@.len() == i,
                        forall|j: int| 0 <= j < i ==> #[trigger] v@[j] == m@[j],
                    decreases m.len() - i,
                {
                    let p = (m[i].0.dup(), m[i].1.dup());
                    v.push(p);
                    i = i + 1;
                }
                let r = NodeSources::Mapping(v);
                proof {
                    assert(r.pairs() =~= self.pairs());
                }
                r
            },
        }
    }

    /// Rewrites the external side of every port by `f` while keeping the
    /// local side, so a node function keeps seeing its local names. Applied
    /// to the list form this promotes it to the mapping form, pairing each
    /// original name with its image.
    ///
    /// `g` is the mathematical function that `f` computes.
    pub fn map<Fm: Fn(&Source) -> Source>(
        &self,
        f: Fm,
        Ghost(g): Ghost<spec_fn(Seq<char>) -> Seq<char>>,
    ) -> (r: NodeSources)
        requires
            forall|x: &Source| #[trigger] f.requires((x,)),
            forall|x: &Source, y: Source| #[trigger] f.ensures((x,), y) ==> y@ == g(x@),
        ensures
            r.is_map(),
            r.pairs() == self.pairs().map_values(
                (|p: (Seq<char>, Seq<char>)| (p.0, g(p.1))),
            ),
    {
        let mut v: Vec<(Source, Source)> = Vec::new();
        let mut i: usize = 0;
        match self {
            NodeSources::List(l) => {
                while i < l.len()
                    invariant
                        forall|x: &Source| #[trigger] f.requires((x,)),
                        forall|x: &Source, y: Source| #[trigger] f.ensures((x,), y) ==> y@ == g(
                            x@,
                        ),
                        i <= l.len(),
                        v@.len() == i,
                        forall|j: int| 0 <= j < i ==> #[trigger] v@[j].0@ == l@[j]@ && v@[j].1@
                            == g(l@[j]@),
                    decreases l.len() - i,
                {
                    let y = f(&l[i]);
                    v.push((l[i].dup(), y));
                    i = i + 1;
                }
            },
            NodeSources::Mapping(m) => {
                while i < m.len()
                    invariant
                        forall|x: &Source| #[trigger] f.requires((x,)),
                        forall|x: &Source, y: Source| #[trigger] f.ensures((x,), y) ==> y@ == g(
                            x@,
                        ),
                        i <= m.len(),
                        v@.len() == i,
                        forall|j: int| 0 <= j < i ==> #[trigger] v@[j].0@ == m@[j].0@ && v@[j].1@
                            == g(m@[j].1@),
                    decreases m.len() - i,
                {
                    let y = f(&m[i].1);
                    v.push((m[i].0.dup(), y));
                    i = i + 1;
                }
            },
        }
        let r = NodeSources::Mapping(v);
        proof {
            assert(r.pairs() =~= self.pairs().map_values(
                (|p: (Seq<char>, Seq<char>)| (p.0, g(p.1))),
            ));
        }
        r
    }
}

/// Behavioral equality of two port declarations: same variant and same
/// (local, external) name pairs.
pub open spec fn ns_eq(a: NodeSources, b: NodeSources) -> bool {
    a.is_map() == b.is_map() && a.pairs() == b.pairs()
}

/// Copies a vector of sources, preserving the values.
pub fn dup_sources(v: &Vec<Source>) -> (r: Vec<Source>)
    ensures
        r@ == v@,
{
    let mut r: Vec<Source> = Vec::new();
    let mut i: usize = 0;
    while i < v.len()
        invariant
            i <= v.len(),
            r@.len() == i,
            forall|j: int| 0 <= j < i ==> #[trigger] r@[j] == v@[j],
        decreases v.len() - i,
    {
        r.push(v[i].dup());
        i = i + 1;
    }
    proof {
        assert(r@ =~= v@);
    }
    r
}

} // verus!
