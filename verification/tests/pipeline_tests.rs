use qupido::id;
use qupido::Container;
use qupido::ContainerData;
use qupido::Context;
use qupido::Node;
use qupido::NodeCall;
use qupido::NodeSources;
use qupido::Pipeline;
use qupido::QupidoError;
use qupido::QupidoResult;

#[derive(Clone, Copy)]
enum MathOp {
    PlusTimes,
    Square,
    PlusOne,
    Show,
}

impl ContainerData for MathOp {
    fn dup(&self) -> MathOp {
        *self
    }
}

impl NodeCall<u32> for MathOp {
    // The two specification members exist only for verification and are
    // never called at run time.
    fn reads(&self) -> vstd::set::Set<vstd::seq::Seq<char>> {
        unreachable!()
    }

    fn apply(
        &self,
        _inputs: vstd::map::Map<vstd::seq::Seq<char>, u32>,
    ) -> Result<vstd::map::Map<vstd::seq::Seq<char>, u32>, qupido::ErrorView> {
        unreachable!()
    }

    fn call(&self, ctx: &Context<u32>) -> QupidoResult<Container<u32>> {
        match self {
            MathOp::PlusTimes => {
                let a: &u32 = ctx.inputs.get("param_a")?;
                let b: &u32 = ctx.inputs.get("param_b")?;
                let mut r = Container::new();
                r.insert("out_plus", a + b)?;
                r.insert("out_times", a * b)?;
                Ok(r)
            }
            MathOp::Square => {
                let v: &u32 = ctx.inputs.get("a_plus_b")?;
                let mut r = Container::new();
                r.insert("squared", v * v)?;
                Ok(r)
            }
            MathOp::PlusOne => {
                let v: &u32 = ctx.inputs.get("squared")?;
                let mut r = Container::new();
                r.insert("squared_plus_1", v + 1)?;
                Ok(r)
            }
            MathOp::Show => {
                let v: &u32 = ctx.inputs.get("squared_plus_1")?;
                println!("val: {:?}", v);
                Ok(Container::new())
            }
        }
    }
}

fn topo_nodes() -> (Node<MathOp>, Node<MathOp>, Node<MathOp>) {
    let a = Node::new(
        NodeSources::Mapping(vec![(id("param_a"), id("a")), (id("param_b"), id("b"))]),
        NodeSources::Mapping(vec![
            (id("out_plus"), id("a_plus_b")),
            (id("out_times"), id("a_times_b")),
        ]),
        MathOp::PlusTimes,
    )
    .tag("math")
    .tag("plus")
    .tag("multiply");

    let b = Node::new(
        NodeSources::List(vec![id("a_plus_b")]),
        NodeSources::List(vec![id("squared")]),
        MathOp::Square,
    )
    .tag("math");

    let c = Node::new(
        NodeSources::List(vec![id("squared")]),
        NodeSources::List(vec![id("squared_plus_1")]),
        MathOp::PlusOne,
    )
    .tag("math");

    (a, b, c)
}

fn run_topo_case() -> QupidoResult<()> {
    let (a, b, c) = topo_nodes();

    let pipeline = Pipeline::from_nodes(&[a, b, c])?;

    let container = {
        let mut c = Container::new();
        c.insert("a", 3 as u32)?;
        c.insert("b", 5 as u32)?;
        c
    };

    {
        assert_eq!(pipeline.inputs(), vec![id("a"), id("b")]);
        assert_eq!(pipeline.outputs(), vec![id("a_times_b"), id("squared_plus_1")]);
        assert_eq!(
            pipeline.all_outputs(),
            vec![id("a_plus_b"), id("a_times_b"), id("squared"), id("squared_plus_1")]
        );

        let result = pipeline.run(&container)?;

        let a_plus_b = result.get("a_plus_b")?;
        assert_eq!(*a_plus_b, 8);
    }

    let pb = Pipeline::from_nodes(&[Node::new(
        NodeSources::List(vec![id("squared_plus_1")]),
        NodeSources::List(vec![]),
        MathOp::Show,
    )])?;

    let full = pipeline.add(&pb)?;
    {
        let _result = full.run(&container)?;
    }

    Ok(())
}

#[test]
fn lib_test_nodes_topo() -> QupidoResult<()> {
    run_topo_case()
}

#[test]
fn pipeline_test_nodes_topo() -> QupidoResult<()> {
    run_topo_case()
}

#[derive(Clone, Copy)]
enum CalcOp {
    AddXY,
    AddMyXY,
}

impl ContainerData for CalcOp {
    fn dup(&self) -> CalcOp {
        *self
    }
}

impl NodeCall<i64> for CalcOp {
    // The two specification members exist only for verification and are
    // never called at run time.
    fn reads(&self) -> vstd::set::Set<vstd::seq::Seq<char>> {
        unreachable!()
    }

    fn apply(
        &self,
        _inputs: vstd::map::Map<vstd::seq::Seq<char>, i64>,
    ) -> Result<vstd::map::Map<vstd::seq::Seq<char>, i64>, qupido::ErrorView> {
        unreachable!()
    }

    fn call(&self, ctx: &Context<i64>) -> QupidoResult<Container<i64>> {
        match self {
            CalcOp::AddXY => {
                let x: &i64 = ctx.inputs.get("x")?;
                let y: &i64 = ctx.inputs.get("y")?;
                let mut r = Container::new();
                r.insert("x+y", x + y)?;
                Ok(r)
            }
            CalcOp::AddMyXY => {
                let x: &i64 = ctx.inputs.get("my_x")?;
                let y: &i64 = ctx.inputs.get("my_y")?;
                let mut r = Container::new();
                r.insert("my_x+y", x + y)?;
                Ok(r)
            }
        }
    }
}

fn num_calc() -> QupidoResult<Pipeline<CalcOp>> {
    let n = Node::new(
        NodeSources::List(vec![id("x"), id("y")]),
        NodeSources::List(vec![id("x+y")]),
        CalcOp::AddXY,
    );
    Pipeline::from_nodes(&[n])
}

fn num_calc_map() -> QupidoResult<Pipeline<CalcOp>> {
    let n = Node::new(
        NodeSources::Mapping(vec![(id("my_x"), id("x")), (id("my_y"), id("y"))]),
        NodeSources::Mapping(vec![(id("my_x+y"), id("x+y"))]),
        CalcOp::AddMyXY,
    );
    Pipeline::from_nodes(&[n])
}

#[test]
fn lib_test_namespaces() -> QupidoResult<()> {
    let x_y = num_calc()?;
    let mut data = Container::new();
    data.insert("x", -3 as i64)?;
    data.insert("y", 12 as i64)?;

    let data_result = x_y.run(&data)?;
    assert_eq!(*data_result.get("x+y")?, 9 as i64);

    Ok(())
}

#[test]
fn pipeline_test_namespaces() -> QupidoResult<()> {
    let x_y = num_calc()?;
    let mut data = Container::new();
    data.insert("x", -3 as i64)?;
    data.insert("y", 12 as i64)?;

    let data_result = x_y.run(&data)?;
    assert_eq!(*data_result.get("x+y")?, 9 as i64);

    let x_y_namespaced = num_calc()?.with_namespace("calc")?;

    assert_eq!(x_y_namespaced.inputs(), vec![id("calc.x"), id("calc.y")]);
    assert_eq!(x_y_namespaced.outputs(), vec![id("calc.x+y")]);

    let mut data2 = Container::new();
    data2.insert("calc.x", 5 as i64)?;
    data2.insert("calc.y", 10 as i64)?;
    let data2_result = x_y_namespaced.run(&data2)?;
    assert_eq!(*data2_result.get("calc.x+y")?, 15);

    {
        let x_y = num_calc_map()?;
        let mut data = Container::new();
        data.insert("x", -5 as i64)?;
        data.insert("y", 6 as i64)?;

        let data_result = x_y.run(&data)?;
        assert_eq!(*data_result.get("x+y")?, 1 as i64);

        let namespaced = x_y.with_namespace("foo")?;
        let mut data = Container::new();
        data.insert("foo.x", -5 as i64)?;
        data.insert("foo.y", 6 as i64)?;

        let data_result = namespaced.run(&data)?;
        assert_eq!(*data_result.get("foo.x+y")?, 1 as i64);
    }

    Ok(())
}

#[test]
fn duplicate_output_is_rejected() {
    let a = Node::new(
        NodeSources::List(vec![]),
        NodeSources::List(vec![id("r")]),
        MathOp::PlusTimes,
    );
    let b = Node::new(
        NodeSources::List(vec![]),
        NodeSources::List(vec![id("r")]),
        MathOp::Square,
    );
    match Pipeline::from_nodes(&[a, b]) {
        Err(QupidoError::DuplicateData(name)) => assert_eq!(name, "r".to_string()),
        _ => panic!("expected a duplicate-output error"),
    }
}

#[test]
fn cycle_is_rejected() {
    let a = Node::new(
        NodeSources::List(vec![id("y")]),
        NodeSources::List(vec![id("x")]),
        MathOp::PlusTimes,
    );
    let b = Node::new(
        NodeSources::List(vec![id("x")]),
        NodeSources::List(vec![id("y")]),
        MathOp::Square,
    );
    match Pipeline::from_nodes(&[a, b]) {
        Err(QupidoError::InvalidPipeline) => {}
        _ => panic!("expected a cycle error"),
    }
}

#[test]
fn namespaced_run_misses_unprefixed_seed() -> QupidoResult<()> {
    let (a, b, c) = topo_nodes();
    let pipeline = Pipeline::from_nodes(&[a, b, c])?.with_namespace("c")?;

    let mut seed = Container::new();
    seed.insert("c.a", 3 as u32)?;
    seed.insert("c.b", 5 as u32)?;
    let result = pipeline.run(&seed)?;
    assert_eq!(*result.get("c.a_plus_b")?, 8);
    assert_eq!(*result.get("c.squared")?, 64);
    assert_eq!(*result.get("c.squared_plus_1")?, 65);

    let mut plain = Container::new();
    plain.insert("a", 3 as u32)?;
    plain.insert("b", 5 as u32)?;
    match pipeline.run(&plain) {
        Err(QupidoError::DataNotFound(name)) => {
            assert_eq!(name, "c.a".to_string());
        }
        _ => panic!("expected a missing-input error"),
    }
    Ok(())
}
