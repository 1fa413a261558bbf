use qupido::id;
use qupido::Container;
use qupido::ContainerData;
use qupido::Context;
use qupido::Node;
use qupido::NodeCall;
use qupido::NodeSources;
use qupido::Pipeline;
use qupido::QupidoError;
use qupido::QupidoResult;
use qupido::Tag;

#[derive(Clone, Copy)]
enum ChainOp {
    Sum,
    Sq,
    MakeXY,
    AddZ,
    MakeX,
    UseX,
}

impl ContainerData for ChainOp {
    fn dup(&self) -> ChainOp {
        *self
    }
}

impl NodeCall<i64> for ChainOp {
    // The two specification members exist only for verification and are
    // never called at run time.
    fn reads(&self) -> vstd::set::Set<vstd::seq::Seq<char>> {
        unreachable!()
    }

    fn apply(
        &self,
        _inputs: vstd::map::Map<vstd::seq::Seq<char>, i64>,
    ) -> Result<vstd::map::Map<vstd::seq::Seq<char>, i64>, qupido::ErrorView> {
        unreachable!()
    }

    fn call(&self, ctx: &Context<i64>) -> QupidoResult<Container<i64>> {
        match self {
            ChainOp::Sum => {
                let a: &i64 = ctx.inputs.get("a")?;
                let b: &i64 = ctx.inputs.get("b")?;
                let mut r = Container::new();
                r.insert("sum", a + b)?;
                Ok(r)
            }
            ChainOp::Sq => {
                let s: &i64 = ctx.inputs.get("sum")?;
                let mut r = Container::new();
                r.insert("sq", s * s)?;
                Ok(r)
            }
            ChainOp::MakeXY => {
                let mut r = Container::new();
                r.insert("o_x", 1 as i64)?;
                r.insert("o_y", 2 as i64)?;
                Ok(r)
            }
            ChainOp::AddZ => {
                let x: &i64 = ctx.inputs.get("x")?;
                let y: &i64 = ctx.inputs.get("y")?;
                let mut r = Container::new();
                r.insert("z", x + y)?;
                Ok(r)
            }
            ChainOp::MakeX => {
                let mut r = Container::new();
                r.insert("x", 7 as i64)?;
                Ok(r)
            }
            ChainOp::UseX => {
                let x: &i64 = ctx.inputs.get("x")?;
                let mut r = Container::new();
                r.insert("y", x + 1)?;
                Ok(r)
            }
        }
    }
}

fn chain_nodes() -> (Node<ChainOp>, Node<ChainOp>) {
    let a = Node::new(
        NodeSources::List(vec![id("a"), id("b")]),
        NodeSources::List(vec![id("sum")]),
        ChainOp::Sum,
    );
    let b = Node::new(
        NodeSources::List(vec![id("sum")]),
        NodeSources::List(vec![id("sq")]),
        ChainOp::Sq,
    );
    (a, b)
}

fn seed_ab() -> QupidoResult<Container<i64>> {
    let mut c = Container::new();
    c.insert("a", 3 as i64)?;
    c.insert("b", 5 as i64)?;
    Ok(c)
}

#[test]
fn linear_chain() -> QupidoResult<()> {
    let (a, b) = chain_nodes();
    let p = Pipeline::from_nodes(&[a, b])?;

    assert_eq!(p.inputs(), vec![id("a"), id("b")]);
    assert_eq!(p.outputs(), vec![id("sq")]);
    assert_eq!(p.all_outputs(), vec![id("sq"), id("sum")]);

    let seed = seed_ab()?;
    let result = p.run(&seed)?;
    assert_eq!(*result.get("a")?, 3);
    assert_eq!(*result.get("b")?, 5);
    assert_eq!(*result.get("sum")?, 8);
    assert_eq!(*result.get("sq")?, 64);
    Ok(())
}

#[test]
fn diamond_with_map_ports() -> QupidoResult<()> {
    let a = Node::new(
        NodeSources::List(vec![]),
        NodeSources::Mapping(vec![(id("o_x"), id("x")), (id("o_y"), id("y"))]),
        ChainOp::MakeXY,
    );
    let b = Node::new(
        NodeSources::List(vec![id("x"), id("y")]),
        NodeSources::List(vec![id("z")]),
        ChainOp::AddZ,
    );
    let p = Pipeline::from_nodes(&[a, b])?;
    let result = p.run(&Container::new())?;
    assert_eq!(*result.get("x")?, 1);
    assert_eq!(*result.get("y")?, 2);
    assert_eq!(*result.get("z")?, 3);
    Ok(())
}

#[test]
fn composition_resolves_dangling_input() -> QupidoResult<()> {
    let p1 = Pipeline::from_nodes(&[Node::new(
        NodeSources::List(vec![]),
        NodeSources::List(vec![id("x")]),
        ChainOp::MakeX,
    )])?;
    let p2 = Pipeline::from_nodes(&[Node::new(
        NodeSources::List(vec![id("x")]),
        NodeSources::List(vec![id("y")]),
        ChainOp::UseX,
    )])?;

    assert_eq!(p1.inputs(), vec![]);
    assert_eq!(p2.inputs(), vec![id("x")]);
    let joined = p1.add(&p2)?;
    assert_eq!(joined.inputs(), vec![]);
    assert_eq!(joined.outputs(), vec![id("y")]);

    let result = joined.run(&Container::new())?;
    assert_eq!(*result.get("y")?, 8);
    Ok(())
}

#[test]
fn permuted_construction_runs_identically() -> QupidoResult<()> {
    let (a1, b1) = chain_nodes();
    let (a2, b2) = chain_nodes();
    let p_fwd = Pipeline::from_nodes(&[a1, b1])?;
    let p_rev = Pipeline::from_nodes(&[b2, a2])?;

    let seed = seed_ab()?;
    let r1 = p_fwd.run(&seed)?;
    let r2 = p_rev.run(&seed)?;
    for key in ["a", "b", "sum", "sq"] {
        assert_eq!(*r1.get(key)?, *r2.get(key)?);
    }
    assert_eq!(p_fwd.inputs(), p_rev.inputs());
    assert_eq!(p_fwd.outputs(), p_rev.outputs());
    assert_eq!(p_fwd.all_outputs(), p_rev.all_outputs());
    Ok(())
}

#[test]
fn repeated_runs_are_deterministic() -> QupidoResult<()> {
    let (a, b) = chain_nodes();
    let p = Pipeline::from_nodes(&[a, b])?;
    let seed = seed_ab()?;
    let r1 = p.run(&seed)?;
    let r2 = p.run(&seed)?;
    for key in ["a", "b", "sum", "sq"] {
        assert_eq!(*r1.get(key)?, *r2.get(key)?);
    }
    Ok(())
}

#[test]
fn namespaced_run_matches_plain_run() -> QupidoResult<()> {
    let (a, b) = chain_nodes();
    let p = Pipeline::from_nodes(&[a, b])?;
    let plain = p.run(&seed_ab()?)?;

    let q = p.with_namespace("c")?;
    assert_eq!(q.inputs(), vec![id("c.a"), id("c.b")]);
    assert_eq!(q.outputs(), vec![id("c.sq")]);
    assert_eq!(q.all_outputs(), vec![id("c.sq"), id("c.sum")]);

    let mut seed = Container::new();
    seed.insert("c.a", 3 as i64)?;
    seed.insert("c.b", 5 as i64)?;
    let result = q.run(&seed)?;
    for key in ["sum", "sq"] {
        let prefixed = format!("c.{}", key);
        assert_eq!(*result.get(&prefixed)?, *plain.get(key)?);
    }
    Ok(())
}

#[test]
fn nested_namespaces_compose() -> QupidoResult<()> {
    let (a, b) = chain_nodes();
    let p = Pipeline::from_nodes(&[a, b])?.with_namespace("inner")?.with_namespace("outer")?;
    assert_eq!(p.inputs(), vec![id("outer.inner.a"), id("outer.inner.b")]);
    assert_eq!(p.outputs(), vec![id("outer.inner.sq")]);
    Ok(())
}

#[test]
fn container_strict_insert_rejects_duplicates() -> QupidoResult<()> {
    let mut c: Container<i64> = Container::new();
    c.insert("k", 1)?;
    match c.insert("k", 2) {
        Err(QupidoError::DuplicateData(name)) => assert_eq!(name, "k".to_string()),
        _ => panic!("expected a duplicate-key error"),
    }
    assert_eq!(*c.get("k")?, 1);
    Ok(())
}

#[test]
fn container_upsert_overwrites() -> QupidoResult<()> {
    let mut c: Container<i64> = Container::new();
    c.insert("k", 1)?;
    c.upsert("k", 2);
    assert_eq!(*c.get("k")?, 2);
    c.upsert("fresh", 9);
    assert_eq!(*c.get("fresh")?, 9);
    Ok(())
}

#[test]
fn container_get_missing_key_fails() {
    let c: Container<i64> = Container::new();
    match c.get("absent") {
        Err(QupidoError::DataNotFound(name)) => assert_eq!(name, "absent".to_string()),
        _ => panic!("expected a missing-key error"),
    }
}

#[test]
fn node_tags_accumulate() {
    let n = Node::new(
        NodeSources::List(vec![]),
        NodeSources::List(vec![id("x")]),
        ChainOp::MakeX,
    )
    .tag("alpha")
    .tag("beta");
    assert_eq!(n.tags.len(), 2);
    let Tag::Tag(first) = &n.tags[0];
    assert_eq!(first, "alpha");
    let Tag::Tag(second) = &n.tags[1];
    assert_eq!(second, "beta");
    assert!(n.namespace.is_none());
}

#[test]
fn port_declarations_expose_external_names() {
    let list = NodeSources::List(vec![id("a"), id("b")]);
    assert_eq!(list.inputs(), vec![id("a"), id("b")]);
    assert_eq!(list.outputs(), vec![id("a"), id("b")]);

    let mapping = NodeSources::Mapping(vec![(id("local"), id("global"))]);
    assert_eq!(mapping.inputs(), vec![id("global")]);
    assert_eq!(mapping.outputs(), vec![id("global")]);
}

#[test]
fn surfaces_are_sorted_and_unique() -> QupidoResult<()> {
    let a = Node::new(
        NodeSources::List(vec![id("zeta"), id("alpha")]),
        NodeSources::List(vec![id("mid")]),
        ChainOp::Sum,
    );
    let b = Node::new(
        NodeSources::List(vec![id("alpha"), id("mid")]),
        NodeSources::List(vec![id("beta")]),
        ChainOp::Sq,
    );
    let p = Pipeline::from_nodes(&[a, b])?;
    assert_eq!(p.inputs(), vec![id("alpha"), id("zeta")]);
    assert_eq!(p.outputs(), vec![id("beta")]);
    assert_eq!(p.all_outputs(), vec![id("beta"), id("mid")]);
    Ok(())
}

#[test]
fn missing_declared_output_fails_run() {
    // The node declares an output its function never produces.
    let n = Node::new(
        NodeSources::List(vec![]),
        NodeSources::List(vec![id("ghost_output")]),
        ChainOp::MakeX,
    );
    let p = Pipeline::from_nodes(&[n]).unwrap();
    match p.run(&Container::new()) {
        Err(QupidoError::DataNotFound(name)) => assert_eq!(name, "ghost_output".to_string()),
        _ => panic!("expected a missing-output error"),
    }
}

#[test]
fn source_text_round_trips() {
    let s = id("some.name");
    assert_eq!(s.get_id(), "some.name".to_string());
    assert_eq!(s.as_str(), "some.name");
    assert_eq!(s, id("some.name"));
    assert!(s != id("other"));
}
