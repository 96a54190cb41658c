use frame_engine::error::EngineError;
use frame_engine::frame::DataFrame;
use frame_engine::model::{AggKind, CmpOp, DataType};
use frame_engine::plan::LazyFrame;
use frame_engine::series::{Scalar, Series};

fn ints(name: &str, v: &[i64]) -> Series {
    Series::from_options(name, DataType::Int64, v.iter().map(|x| Some(Scalar::Int(*x))).collect())
        .unwrap()
}

fn texts(name: &str, v: &[&str]) -> Series {
    Series::from_options(
        name,
        DataType::Utf8,
        v.iter().map(|x| Some(Scalar::Text(x.to_string()))).collect(),
    )
    .unwrap()
}

fn people() -> DataFrame {
    DataFrame::new(vec![
        texts("Name", &["Ann", "Bob", "Cid", "Dee"]),
        texts("Gender", &["F", "M", "M", "F"]),
        ints("Age", &[25, 30, 35, 41]),
    ])
    .unwrap()
}

fn column_values(df: &DataFrame, name: &str) -> Vec<Option<Scalar>> {
    df.column(name).unwrap().to_options()
}

#[test]
fn plan_runs_nodes_in_order() {
    let plan = LazyFrame::new(people())
        .filter("Age", CmpOp::Gt, Scalar::Int(26))
        .sort(&["Age"], &[true])
        .select(&["Name", "Age"]);
    assert_eq!(plan.nodes.len(), 3);
    let out = plan.collect().unwrap();
    assert_eq!(
        column_values(&out, "Name"),
        vec![
            Some(Scalar::Text("Dee".to_string())),
            Some(Scalar::Text("Cid".to_string())),
            Some(Scalar::Text("Bob".to_string()))
        ]
    );
    assert_eq!(out.width(), 2);
}

#[test]
fn plan_runs_again_with_the_same_result() {
    let plan = LazyFrame::new(people()).group_by(&["Gender"], &[(AggKind::Count, "Age"), (AggKind::Max, "Age")]);
    let a = plan.collect().unwrap();
    let b = plan.collect().unwrap();
    assert_eq!(column_values(&a, "Age_max"), vec![Some(Scalar::Int(41)), Some(Scalar::Int(35))]);
    assert_eq!(column_values(&a, "Age_count"), column_values(&b, "Age_count"));
    assert_eq!(column_values(&a, "Gender"), column_values(&b, "Gender"));
}

#[test]
fn plan_stops_at_the_first_error() {
    let plan = LazyFrame::new(people()).select(&["Nope"]).filter("Age", CmpOp::Eq, Scalar::Bool(true));
    assert_eq!(plan.collect().err(), Some(EngineError::KeyError));
    let plan = LazyFrame::new(people()).filter("Age", CmpOp::Eq, Scalar::Bool(true)).select(&["Nope"]);
    assert_eq!(plan.collect().err(), Some(EngineError::TypeError));
}

#[test]
fn plan_join_and_melt() {
    let right = DataFrame::new(vec![texts("Who", &["Bob", "Dee"]), ints("Score", &[7, 9])]).unwrap();
    let out = LazyFrame::new(people())
        .join(right, "Name", "Who")
        .melt(&["Name"], &["Age", "Score"])
        .collect()
        .unwrap();
    assert_eq!(out.height(), 4);
    assert_eq!(
        column_values(&out, "value"),
        vec![Some(Scalar::Int(30)), Some(Scalar::Int(41)), Some(Scalar::Int(7)), Some(Scalar::Int(9))]
    );
}

#[test]
fn empty_plan_gives_the_source() {
    let out = LazyFrame::new(people()).collect().unwrap();
    assert_eq!(out.height(), 4);
    assert_eq!(column_values(&out, "Age"), column_values(&people(), "Age"));
}

#[test]
fn compare_broadcasts_and_keeps_nulls() {
    let s = Series::from_options("x", DataType::Int64, vec![Some(Scalar::Int(1)), None, Some(Scalar::Int(5))])
        .unwrap();
    let m = s.compare(CmpOp::Ge, &Scalar::Int(2)).unwrap();
    assert_eq!(m.dtype(), DataType::Boolean);
    assert_eq!(m.to_options(), vec![Some(Scalar::Bool(false)), None, Some(Scalar::Bool(true))]);
    let t = texts("t", &["apple", "b"]).compare(CmpOp::Lt, &Scalar::Text("az".to_string())).unwrap();
    assert_eq!(t.to_options(), vec![Some(Scalar::Bool(true)), Some(Scalar::Bool(false))]);
    assert_eq!(s.compare(CmpOp::Eq, &Scalar::Text("1".to_string())).err(), Some(EngineError::TypeError));
}

#[test]
fn plan_melt_then_pivot() {
    let out = LazyFrame::new(people())
        .melt(&["Name"], &["Age"])
        .pivot("Name", "variable", "value", AggKind::Max)
        .collect()
        .unwrap();
    assert_eq!(column_values(&out, "Age"), column_values(&people(), "Age"));
}

#[test]
fn plan_computes_a_column() {
    let out = LazyFrame::new(people())
        .with_arith("Twice", frame_engine::model::ArithOp::Add, "Age", "Age")
        .with_arith("Age", frame_engine::model::ArithOp::Sub, "Twice", "Age")
        .collect()
        .unwrap();
    assert_eq!(out.width(), 4);
    assert_eq!(
        column_values(&out, "Twice"),
        vec![Some(Scalar::Int(50)), Some(Scalar::Int(60)), Some(Scalar::Int(70)), Some(Scalar::Int(82))]
    );
    assert_eq!(column_values(&out, "Age"), column_values(&people(), "Age"));
    let bad = LazyFrame::new(people()).with_arith("x", frame_engine::model::ArithOp::Mul, "Name", "Age");
    assert_eq!(bad.collect().err(), Some(EngineError::TypeError));
}
