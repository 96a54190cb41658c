use frame_engine::error::EngineError;
use frame_engine::frame::DataFrame;
use frame_engine::model::{AggKind, DataType};
use frame_engine::series::{FillNullStrategy, Scalar, Series};

fn ints(name: &str, v: &[i64]) -> Series {
    Series::from_options(name, DataType::Int64, v.iter().map(|x| Some(Scalar::Int(*x))).collect())
        .unwrap()
}

fn opt_ints(name: &str, v: &[Option<i64>]) -> Series {
    Series::from_options(name, DataType::Int64, v.iter().map(|x| x.map(Scalar::Int)).collect())
        .unwrap()
}

fn texts(name: &str, v: &[&str]) -> Series {
    Series::from_options(
        name,
        DataType::Utf8,
        v.iter().map(|x| Some(Scalar::Text(x.to_string()))).collect(),
    )
    .unwrap()
}

fn bools(name: &str, v: &[bool]) -> Series {
    Series::from_options(name, DataType::Boolean, v.iter().map(|x| Some(Scalar::Bool(*x))).collect())
        .unwrap()
}

fn int_cells(df: &DataFrame, name: &str) -> Vec<Option<i64>> {
    df.column(name)
        .unwrap()
        .to_options()
        .into_iter()
        .map(|c| match c {
            Some(Scalar::Int(v)) => Some(v),
            None => None,
            other => panic!("not an integer: {:?}", other),
        })
        .collect()
}

fn text_cells(df: &DataFrame, name: &str) -> Vec<Option<String>> {
    df.column(name)
        .unwrap()
        .to_options()
        .into_iter()
        .map(|c| match c {
            Some(Scalar::Text(v)) => Some(v),
            None => None,
            other => panic!("not a text: {:?}", other),
        })
        .collect()
}

fn some_texts(v: &[&str]) -> Vec<Option<String>> {
    v.iter().map(|s| Some(s.to_string())).collect()
}

fn names(df: &DataFrame) -> Vec<String> {
    df.columns().iter().map(|s| s.name().clone()).collect()
}

fn customers() -> DataFrame {
    DataFrame::new(vec![
        texts("Customer", &["Alice", "Bob", "Charlie"]),
        texts("Gender", &["Female", "Male", "Male"]),
        ints("Age", &[25, 30, 35]),
        ints("Income", &[50000, 60000, 70000]),
    ])
    .unwrap()
}

#[test]
fn melt_customers_into_nine_rows() {
    let df = customers();
    let m = df.melt(&["Customer"], &["Gender", "Age", "Income"]).unwrap();
    assert_eq!(m.height(), 9);
    assert_eq!(names(&m), vec!["Customer", "variable", "value"]);
    assert_eq!(
        text_cells(&m, "Customer"),
        some_texts(&["Alice", "Bob", "Charlie", "Alice", "Bob", "Charlie", "Alice", "Bob", "Charlie"])
    );
    assert_eq!(
        text_cells(&m, "variable"),
        some_texts(&["Gender", "Gender", "Gender", "Age", "Age", "Age", "Income", "Income", "Income"])
    );
    assert_eq!(
        text_cells(&m, "value"),
        some_texts(&["Female", "Male", "Male", "25", "30", "35", "50000", "60000", "70000"])
    );
}

#[test]
fn melt_keeps_a_shared_type() {
    let df = customers();
    let m = df.melt(&["Customer"], &["Age", "Income"]).unwrap();
    assert_eq!(m.column("value").unwrap().dtype(), DataType::Int64);
    assert_eq!(
        int_cells(&m, "value"),
        vec![Some(25), Some(30), Some(35), Some(50000), Some(60000), Some(70000)]
    );
}

#[test]
fn melt_errors() {
    let df = customers();
    assert_eq!(df.melt(&["Customer"], &["Height"]).err(), Some(EngineError::KeyError));
    assert_eq!(df.melt(&["Nope"], &["Age"]).err(), Some(EngineError::KeyError));
    assert_eq!(df.melt(&["Customer", "Customer"], &["Age"]).err(), Some(EngineError::SchemaError));
    let v = DataFrame::new(vec![texts("variable", &["a"]), ints("x", &[1])]).unwrap();
    assert_eq!(v.melt(&["variable"], &["x"]).err(), Some(EngineError::SchemaError));
}

#[test]
fn inner_join_on_id() {
    let df1 = DataFrame::new(vec![
        ints("ID", &[1, 2, 3, 4]),
        texts("Name", &["John", "Emma", "Adam", "Emily"]),
    ])
    .unwrap();
    let df2 = DataFrame::new(vec![
        ints("ID", &[1, 2, 3, 5]),
        ints("Salary", &[5000, 4500, 6000, 5500]),
    ])
    .unwrap();
    let j = df1.join_inner(&df2, "ID", "ID").unwrap();
    assert_eq!(j.height(), 3);
    assert_eq!(names(&j), vec!["ID", "Name", "Salary"]);
    assert_eq!(int_cells(&j, "ID"), vec![Some(1), Some(2), Some(3)]);
    assert_eq!(text_cells(&j, "Name"), some_texts(&["John", "Emma", "Adam"]));
    assert_eq!(int_cells(&j, "Salary"), vec![Some(5000), Some(4500), Some(6000)]);
}

#[test]
fn inner_join_expands_and_skips_nulls() {
    let l = DataFrame::new(vec![opt_ints("k", &[Some(1), None, Some(2)]), ints("a", &[10, 20, 30])])
        .unwrap();
    let r = DataFrame::new(vec![opt_ints("k", &[Some(2), Some(1), None, Some(1)]), ints("b", &[1, 2, 3, 4])])
        .unwrap();
    let j = l.join_inner(&r, "k", "k").unwrap();
    assert_eq!(int_cells(&j, "a"), vec![Some(10), Some(10), Some(30)]);
    assert_eq!(int_cells(&j, "b"), vec![Some(2), Some(4), Some(1)]);
}

#[test]
fn inner_join_without_overlap_is_empty() {
    let l = DataFrame::new(vec![ints("id", &[1, 2]), texts("name", &["x", "y"])]).unwrap();
    let r = DataFrame::new(vec![ints("key", &[3, 4]), ints("salary", &[7, 8])]).unwrap();
    let j = l.join_inner(&r, "id", "key").unwrap();
    assert_eq!(j.height(), 0);
    assert_eq!(names(&j), vec!["id", "name", "salary"]);
}

#[test]
fn join_errors() {
    let l = DataFrame::new(vec![ints("id", &[1]), ints("v", &[1])]).unwrap();
    let r = DataFrame::new(vec![ints("id", &[1]), ints("v", &[2])]).unwrap();
    assert_eq!(l.join_inner(&r, "id", "id").err(), Some(EngineError::SchemaError));
    assert_eq!(l.join_inner(&r, "nope", "id").err(), Some(EngineError::KeyError));
    assert_eq!(l.join_inner(&r, "id", "nope").err(), Some(EngineError::KeyError));
}

#[test]
fn group_by_gender_count_and_mean() {
    let df = DataFrame::new(vec![texts("Gender", &["Female", "Male", "Male"]), ints("Age", &[25, 30, 35])])
        .unwrap();
    let g = df
        .group_by(&["Gender"], &[(AggKind::Count, "Age"), (AggKind::Sum, "Age")])
        .unwrap();
    assert_eq!(names(&g), vec!["Gender", "Age_count", "Age_sum"]);
    assert_eq!(text_cells(&g, "Gender"), some_texts(&["Female", "Male"]));
    let counts = int_cells(&g, "Age_count");
    let sums = int_cells(&g, "Age_sum");
    assert_eq!(counts, vec![Some(1), Some(2)]);
    let means: Vec<f64> = sums
        .iter()
        .zip(counts.iter())
        .map(|(s, c)| s.unwrap() as f64 / c.unwrap() as f64)
        .collect();
    assert_eq!(means, vec![25.0, 32.5]);
}

#[test]
fn group_by_null_keys_form_one_group() {
    let df = DataFrame::new(vec![
        opt_ints("k", &[None, Some(1), None, Some(1), Some(2)]),
        opt_ints("v", &[Some(5), None, Some(7), Some(3), None]),
    ])
    .unwrap();
    let g = df
        .group_by(
            &["k"],
            &[(AggKind::Count, "v"), (AggKind::Sum, "v"), (AggKind::Min, "v"), (AggKind::Max, "v")],
        )
        .unwrap();
    assert_eq!(int_cells(&g, "k"), vec![None, Some(1), Some(2)]);
    assert_eq!(int_cells(&g, "v_count"), vec![Some(2), Some(1), Some(0)]);
    assert_eq!(int_cells(&g, "v_sum"), vec![Some(12), Some(3), None]);
    assert_eq!(int_cells(&g, "v_min"), vec![Some(5), Some(3), None]);
    assert_eq!(int_cells(&g, "v_max"), vec![Some(7), Some(3), None]);
}

#[test]
fn group_counts_add_up_to_rows() {
    let df = DataFrame::new(vec![
        texts("a", &["x", "y", "x", "z", "y", "x"]),
        bools("b", &[true, true, false, true, true, true]),
        ints("v", &[1, 2, 3, 4, 5, 6]),
    ])
    .unwrap();
    let g = df.group_by(&["a", "b"], &[(AggKind::Count, "v")]).unwrap();
    let total: i64 = int_cells(&g, "v_count").iter().map(|c| c.unwrap()).sum();
    assert_eq!(total, 6);
    assert_eq!(g.height(), 4);
}

#[test]
fn group_by_errors() {
    let df = DataFrame::new(vec![texts("a", &["x"]), ints("v", &[i64::MAX]), texts("t", &["q"])]).unwrap();
    assert_eq!(df.group_by(&["a"], &[(AggKind::Sum, "t")]).err(), Some(EngineError::TypeError));
    assert_eq!(df.group_by(&["nope"], &[(AggKind::Count, "v")]).err(), Some(EngineError::KeyError));
    assert_eq!(df.group_by(&["a"], &[(AggKind::Count, "nope")]).err(), Some(EngineError::KeyError));
    assert_eq!(df.group_by(&[], &[(AggKind::Count, "v")]).err(), Some(EngineError::SchemaError));
    assert_eq!(
        df.group_by(&["a"], &[(AggKind::Count, "v"), (AggKind::Count, "v")]).err(),
        Some(EngineError::SchemaError)
    );
    let big = DataFrame::new(vec![texts("a", &["x", "x"]), ints("v", &[i64::MAX, 1])]).unwrap();
    assert_eq!(big.group_by(&["a"], &[(AggKind::Sum, "v")]).err(), Some(EngineError::TypeError));
}

#[test]
fn frame_construction_checks_shape_and_names() {
    assert_eq!(
        DataFrame::new(vec![ints("a", &[1, 2]), ints("b", &[1])]).err(),
        Some(EngineError::ShapeError)
    );
    assert_eq!(
        DataFrame::new(vec![ints("a", &[1]), ints("a", &[2])]).err(),
        Some(EngineError::SchemaError)
    );
    let df = DataFrame::new(vec![ints("a", &[1, 2]), ints("b", &[3, 4])]).unwrap();
    assert_eq!(df.height(), 2);
    assert_eq!(df.width(), 2);
    for c in df.columns() {
        assert_eq!(c.len(), df.height());
    }
}

#[test]
fn select_twice_is_the_same() {
    let df = customers();
    let once = df.select(&["Income", "Customer"]).unwrap();
    let twice = once.select(&["Income", "Customer"]).unwrap();
    assert_eq!(names(&once), vec!["Income", "Customer"]);
    assert_eq!(names(&twice), names(&once));
    assert_eq!(int_cells(&twice, "Income"), int_cells(&once, "Income"));
    assert_eq!(text_cells(&twice, "Customer"), text_cells(&once, "Customer"));
    assert_eq!(df.select(&["Nope"]).err(), Some(EngineError::KeyError));
    assert_eq!(df.select(&["Age", "Age"]).err(), Some(EngineError::SchemaError));
}

#[test]
fn filter_all_true_and_all_false() {
    let df = customers();
    let all = df.filter(&bools("m", &[true, true, true])).unwrap();
    assert_eq!(all.height(), 3);
    assert_eq!(int_cells(&all, "Age"), int_cells(&df, "Age"));
    assert_eq!(text_cells(&all, "Customer"), text_cells(&df, "Customer"));
    let none = df.filter(&bools("m", &[false, false, false])).unwrap();
    assert_eq!(none.height(), 0);
    assert_eq!(names(&none), names(&df));
    assert_eq!(none.column("Age").unwrap().dtype(), DataType::Int64);
}

#[test]
fn filter_treats_null_as_false() {
    let df = customers();
    let mask = Series::from_options(
        "m",
        DataType::Boolean,
        vec![Some(Scalar::Bool(true)), None, Some(Scalar::Bool(true))],
    )
    .unwrap();
    let out = df.filter(&mask).unwrap();
    assert_eq!(text_cells(&out, "Customer"), some_texts(&["Alice", "Charlie"]));
    assert_eq!(df.filter(&bools("m", &[true])).err(), Some(EngineError::ShapeError));
    assert_eq!(df.filter(&ints("m", &[1, 1, 1])).err(), Some(EngineError::ShapeError));
}

#[test]
fn sort_twice_is_the_same() {
    let df = DataFrame::new(vec![
        opt_ints("k", &[Some(3), None, Some(1), Some(3), Some(2)]),
        ints("i", &[0, 1, 2, 3, 4]),
    ])
    .unwrap();
    let once = df.sort(&["k"], &[false]).unwrap();
    let twice = once.sort(&["k"], &[false]).unwrap();
    assert_eq!(int_cells(&once, "k"), vec![Some(1), Some(2), Some(3), Some(3), None]);
    assert_eq!(int_cells(&once, "i"), vec![Some(2), Some(4), Some(0), Some(3), Some(1)]);
    assert_eq!(int_cells(&twice, "k"), int_cells(&once, "k"));
    assert_eq!(int_cells(&twice, "i"), int_cells(&once, "i"));
}

#[test]
fn sort_descending_keeps_nulls_last() {
    let df = DataFrame::new(vec![
        opt_ints("k", &[Some(1), None, Some(5), Some(3)]),
        texts("t", &["b", "a", "c", "a"]),
    ])
    .unwrap();
    let s = df.sort(&["k"], &[true]).unwrap();
    assert_eq!(int_cells(&s, "k"), vec![Some(5), Some(3), Some(1), None]);
    let s2 = df.sort(&["t", "k"], &[false, true]).unwrap();
    assert_eq!(text_cells(&s2, "t"), some_texts(&["a", "a", "b", "c"]));
    assert_eq!(int_cells(&s2, "k"), vec![Some(3), None, Some(1), Some(5)]);
    assert_eq!(df.sort(&["k"], &[]).err(), Some(EngineError::ShapeError));
    assert_eq!(df.sort(&["z"], &[true]).err(), Some(EngineError::KeyError));
    assert_eq!(df.sort(&["k", "k"], &[true, true]).err(), Some(EngineError::SchemaError));
}

#[test]
fn fill_null_zero_leaves_no_nulls() {
    let s = opt_ints("Age", &[Some(4), None, None, Some(2)]);
    assert_eq!(s.null_count(), 2);
    let z = s.fill_null(&FillNullStrategy::Zero).unwrap();
    assert_eq!(z.null_count(), 0);
    assert_eq!(
        z.to_options(),
        vec![Some(Scalar::Int(4)), Some(Scalar::Int(0)), Some(Scalar::Int(0)), Some(Scalar::Int(2))]
    );
    let t = Series::from_options("t", DataType::Utf8, vec![None, Some(Scalar::Text("a".to_string()))])
        .unwrap();
    assert_eq!(
        t.fill_null(&FillNullStrategy::Zero).unwrap().to_options(),
        vec![Some(Scalar::Text(String::new())), Some(Scalar::Text("a".to_string()))]
    );
}

#[test]
fn fill_null_forward_backward_and_literal() {
    let s = opt_ints("x", &[None, Some(1), None, Some(3), None]);
    let f = s.fill_null(&FillNullStrategy::Forward).unwrap();
    assert_eq!(
        f.to_options(),
        vec![None, Some(Scalar::Int(1)), Some(Scalar::Int(1)), Some(Scalar::Int(3)), Some(Scalar::Int(3))]
    );
    let b = s.fill_null(&FillNullStrategy::Backward).unwrap();
    assert_eq!(
        b.to_options(),
        vec![Some(Scalar::Int(1)), Some(Scalar::Int(1)), Some(Scalar::Int(3)), Some(Scalar::Int(3)), None]
    );
    let l = s.fill_null(&FillNullStrategy::Literal(Scalar::Int(9))).unwrap();
    assert_eq!(l.null_count(), 0);
    assert_eq!(l.get(0), Some(Scalar::Int(9)));
    assert_eq!(
        s.fill_null(&FillNullStrategy::Literal(Scalar::Bool(true))).err(),
        Some(EngineError::TypeError)
    );
}

#[test]
fn drop_nulls_and_with_column() {
    let df = DataFrame::new(vec![
        opt_ints("Age", &[Some(20), None, Some(40)]),
        Series::from_options(
            "Name",
            DataType::Utf8,
            vec![Some(Scalar::Text("a".to_string())), Some(Scalar::Text("b".to_string())), None],
        )
        .unwrap(),
    ])
    .unwrap();
    let all = df.drop_nulls(None).unwrap();
    assert_eq!(int_cells(&all, "Age"), vec![Some(20)]);
    let sub = df.drop_nulls(Some(&["Age"])).unwrap();
    assert_eq!(int_cells(&sub, "Age"), vec![Some(20), Some(40)]);
    assert_eq!(df.drop_nulls(Some(&["Nope"])).err(), Some(EngineError::KeyError));

    let filled = df.column("Age").unwrap().fill_null(&FillNullStrategy::Zero).unwrap();
    let replaced = df.with_column(filled).unwrap();
    assert_eq!(names(&replaced), vec!["Age", "Name"]);
    assert_eq!(int_cells(&replaced, "Age"), vec![Some(20), Some(0), Some(40)]);
    let added = df.with_column(ints("Extra", &[1, 2, 3])).unwrap();
    assert_eq!(names(&added), vec!["Age", "Name", "Extra"]);
    assert_eq!(df.with_column(ints("Extra", &[1])).err(), Some(EngineError::ShapeError));
}

#[test]
fn series_basics() {
    let s = opt_ints("n", &[Some(-5), None, Some(120)]);
    assert_eq!(s.len(), 3);
    assert_eq!(s.name(), "n");
    let t = s.cast_text();
    assert_eq!(t.dtype(), DataType::Utf8);
    assert_eq!(
        t.to_options(),
        vec![Some(Scalar::Text("-5".to_string())), None, Some(Scalar::Text("120".to_string()))]
    );
    let b = bools("b", &[true, false]).cast_text();
    assert_eq!(
        b.to_options(),
        vec![Some(Scalar::Text("true".to_string())), Some(Scalar::Text("false".to_string()))]
    );
    let r = s.rename("m");
    assert_eq!(r.name(), "m");
    let a = s.append(&ints("o", &[7])).unwrap();
    assert_eq!(a.len(), 4);
    assert_eq!(a.get(3), Some(Scalar::Int(7)));
    assert_eq!(s.append(&bools("o", &[true])).err(), Some(EngineError::TypeError));
    assert_eq!(
        Series::from_options("x", DataType::Int64, vec![Some(Scalar::Bool(true))]).err(),
        Some(EngineError::TypeError)
    );
    let taken = s.take(&vec![2, 0, 2]);
    assert_eq!(taken.to_options(), vec![Some(Scalar::Int(120)), Some(Scalar::Int(-5)), Some(Scalar::Int(120))]);
}

#[test]
fn cast_between_types() {
    let t = texts("t", &["12", "x", "-3", ""]);
    let lenient = t.cast(DataType::Int64, false).unwrap();
    assert_eq!(lenient.dtype(), DataType::Int64);
    assert_eq!(
        lenient.to_options(),
        vec![Some(Scalar::Int(12)), None, Some(Scalar::Int(-3)), None]
    );
    assert_eq!(t.cast(DataType::Int64, true).err(), Some(EngineError::TypeError));
    assert_eq!(
        texts("t", &["7", "8"]).cast(DataType::Int64, true).unwrap().to_options(),
        vec![Some(Scalar::Int(7)), Some(Scalar::Int(8))]
    );
    assert_eq!(
        texts("b", &["true", "no"]).cast(DataType::Boolean, false).unwrap().to_options(),
        vec![Some(Scalar::Bool(true)), None]
    );
    let n = ints("n", &[3, -40]);
    assert_eq!(
        n.cast(DataType::Utf8, true).unwrap().to_options(),
        vec![Some(Scalar::Text("3".to_string())), Some(Scalar::Text("-40".to_string()))]
    );
    assert_eq!(n.cast(DataType::Int64, true).unwrap().to_options(), n.to_options());
    assert_eq!(n.cast(DataType::Boolean, false).err(), Some(EngineError::TypeError));
}

#[test]
fn pivot_spreads_values() {
    let df = DataFrame::new(vec![
        texts("day", &["mon", "mon", "tue", "tue", "mon"]),
        texts("kind", &["a", "b", "a", "a", "a"]),
        opt_ints("n", &[Some(1), Some(2), Some(3), Some(4), None]),
    ])
    .unwrap();
    let p = df.pivot("day", "kind", "n", AggKind::Sum).unwrap();
    assert_eq!(names(&p), vec!["day", "a", "b"]);
    assert_eq!(text_cells(&p, "day"), some_texts(&["mon", "tue"]));
    assert_eq!(int_cells(&p, "a"), vec![Some(1), Some(7)]);
    assert_eq!(int_cells(&p, "b"), vec![Some(2), None]);
    let c = df.pivot("day", "kind", "n", AggKind::Count).unwrap();
    assert_eq!(int_cells(&c, "a"), vec![Some(1), Some(2)]);
    assert_eq!(int_cells(&c, "b"), vec![Some(1), None]);
}

#[test]
fn melt_then_pivot_gives_the_values_back() {
    let df = customers();
    let m = df.melt(&["Customer"], &["Age", "Income"]).unwrap();
    let p = m.pivot("Customer", "variable", "value", AggKind::Sum).unwrap();
    assert_eq!(names(&p), vec!["Customer", "Age", "Income"]);
    assert_eq!(text_cells(&p, "Customer"), text_cells(&df, "Customer"));
    assert_eq!(int_cells(&p, "Age"), int_cells(&df, "Age"));
    assert_eq!(int_cells(&p, "Income"), int_cells(&df, "Income"));
}

#[test]
fn pivot_errors() {
    let df = customers();
    assert_eq!(df.pivot("Nope", "Gender", "Age", AggKind::Sum).err(), Some(EngineError::KeyError));
    assert_eq!(df.pivot("Customer", "Age", "Income", AggKind::Sum).err(), Some(EngineError::TypeError));
    assert_eq!(df.pivot("Customer", "Gender", "Customer", AggKind::Sum).err(), Some(EngineError::TypeError));
    let clash = DataFrame::new(vec![texts("k", &["x"]), texts("c", &["k"]), ints("v", &[1])]).unwrap();
    assert_eq!(clash.pivot("k", "c", "v", AggKind::Sum).err(), Some(EngineError::SchemaError));
    let nulls = DataFrame::new(vec![
        texts("k", &["x"]),
        frame_engine::series::Series::from_options("c", DataType::Utf8, vec![None]).unwrap(),
        ints("v", &[1]),
    ])
    .unwrap();
    assert_eq!(nulls.pivot("k", "c", "v", AggKind::Sum).err(), Some(EngineError::SchemaError));
}

#[test]
fn arithmetic_propagates_nulls() {
    let a = opt_ints("a", &[Some(2), None, Some(-4), Some(i64::MAX)]);
    let b = opt_ints("b", &[Some(5), Some(1), None, Some(0)]);
    let sum = a.arith(frame_engine::model::ArithOp::Add, &b).unwrap();
    assert_eq!(sum.name(), "a");
    assert_eq!(sum.to_options(), vec![Some(Scalar::Int(7)), None, None, Some(Scalar::Int(i64::MAX))]);
    let prod = a.arith(frame_engine::model::ArithOp::Mul, &b).unwrap();
    assert_eq!(prod.to_options(), vec![Some(Scalar::Int(10)), None, None, Some(Scalar::Int(0))]);
    let diff = b.arith(frame_engine::model::ArithOp::Sub, &a).unwrap();
    assert_eq!(diff.get(0), Some(Scalar::Int(3)));
    let one = ints("o", &[1, 1, 1, 1]);
    assert_eq!(a.arith(frame_engine::model::ArithOp::Add, &one).err(), Some(EngineError::TypeError));
    assert_eq!(a.arith(frame_engine::model::ArithOp::Add, &ints("s", &[1])).err(), Some(EngineError::ShapeError));
    assert_eq!(
        a.arith(frame_engine::model::ArithOp::Add, &texts("t", &["1", "2", "3", "4"])).err(),
        Some(EngineError::TypeError)
    );
}
