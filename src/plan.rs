use vstd::prelude::*;
use crate::error::EngineError;
use crate::frame::{aggs_view, names_view, no_reserved, DataFrame};
use crate::model::{
    agg_cols_present, agg_types_ok, all_present, any_overflow, col_of, compare_cells, datum_type,
    distinct, group_frame, has_col, height, join_clash, join_frame, mask_rows, melt_frame,
    arith_cells, arith_overflows, names_unique, pivot_frame, with_col, ArithOp, ColumnModel, pivot_overflow, select_frame, sort_rows, take_frame, AggKind, CmpOp,
    DataType, FrameModel,
};
use crate::series::Scalar;

verus! {

/// One operation of a query plan, applied to the frame that the plan has
/// built so far.
pub enum PlanNode {
    /// The named columns, in order.
    Select(Vec<String>),
    /// The rows where the column compares as asked with the literal.
    Filter(String, CmpOp, Scalar),
    /// Stable sort by key columns, each descending where its flag says so.
    Sort(Vec<String>, Vec<bool>),
    /// Group by key columns, with aggregates of columns.
    GroupBy(Vec<String>, Vec<(AggKind, String)>),
    /// Inner join with a right frame on a left and a right key column.
    Join(DataFrame, String, String),
    /// Melt on id columns and value columns.
    Melt(Vec<String>, Vec<String>),
    /// Pivot on an index column, a spread column and a value column.
    Pivot(String, String, String, AggKind),
    /// A column of the given name, computed row by row from two columns,
    /// put in place of the column of that name or added last.
    WithArith(String, ArithOp, String, String),
}

pub open spec fn strs(v: Seq<String>) -> Seq<Seq<char>> {
    v.map_values(|s: String| s@)
}

pub open spec fn agg_strs(v: Seq<(AggKind, String)>) -> Seq<(AggKind, Seq<char>)> {
    v.map_values(|a: (AggKind, String)| (a.0, a.1@))
}

/// What one node makes of a frame; `None` where the operation fails.
pub open spec fn apply_node(f: FrameModel, n: PlanNode) -> Option<FrameModel> {
    match n {
        PlanNode::Select(cols) => {
            let ns = strs(cols@);
            if all_present(f, ns) && distinct(ns) {
                Some(select_frame(f, ns))
            } else {
                None
            }
        },
        PlanNode::Filter(col, op, lit) => {
            if has_col(f, col@) && datum_type(lit@) == col_of(f, col@).dtype {
                Some(take_frame(f, mask_rows(compare_cells(col_of(f, col@).cells, op, lit@))))
            } else {
                None
            }
        },
        PlanNode::Sort(keys, desc) => {
            let ks = strs(keys@);
            if desc@.len() == keys@.len() && all_present(f, ks) && distinct(ks) {
                Some(take_frame(f, sort_rows(select_frame(f, ks), desc@, height(f))))
            } else {
                None
            }
        },
        PlanNode::GroupBy(keys, aggs) => {
            let ks = strs(keys@);
            let av = agg_strs(aggs@);
            if all_present(f, ks) && agg_cols_present(f, av) && ks.len() > 0 && distinct(ks)
                && agg_types_ok(f, av) && !any_overflow(f, ks, av) && names_unique(
                group_frame(f, ks, av),
            ) {
                Some(group_frame(f, ks, av))
            } else {
                None
            }
        },
        PlanNode::Join(right, l, r) => {
            if has_col(f, l@) && has_col(right@, r@) && !join_clash(f, right@, r@) {
                Some(join_frame(f, right@, l@, r@))
            } else {
                None
            }
        },
        PlanNode::Melt(ids, vals) => {
            let is = strs(ids@);
            let vs = strs(vals@);
            if all_present(f, is) && all_present(f, vs) && distinct(is) && no_reserved(is) {
                Some(melt_frame(f, is, vs))
            } else {
                None
            }
        },
        PlanNode::Pivot(index, columns, values, kind) => {
            let (i, c, v) = (index@, columns@, values@);
            if has_col(f, i) && has_col(f, c) && has_col(f, v) && col_of(f, c).dtype
                == DataType::Utf8 && (kind == AggKind::Count || col_of(f, v).dtype
                == DataType::Int64) && (forall|x: int|
                0 <= x < col_of(f, c).cells.len() ==> (#[trigger] col_of(f, c).cells[x]) is Some)
                && !pivot_overflow(f, i, c, v, kind) && names_unique(
                pivot_frame(f, i, c, v, kind),
            ) {
                Some(pivot_frame(f, i, c, v, kind))
            } else {
                None
            }
        },
        PlanNode::WithArith(name, op, l, r) => {
            if has_col(f, l@) && has_col(f, r@) && col_of(f, l@).dtype == DataType::Int64 && col_of(
                f,
                r@,
            ).dtype == DataType::Int64 && !arith_overflows(
                op,
                col_of(f, l@).cells,
                col_of(f, r@).cells,
            ) {
                Some(
                    with_col(
                        f,
                        ColumnModel {
                            name: name@,
                            dtype: DataType::Int64,
                            cells: arith_cells(op, col_of(f, l@).cells, col_of(f, r@).cells),
                        },
                    ),
                )
            } else {
                None
            }
        },
    }
}

/// What a plan makes of its source: each node in turn, stopping at the first
/// that fails.
pub open spec fn run_plan(f: FrameModel, nodes: Seq<PlanNode>) -> Option<FrameModel>
    decreases nodes.len(),
{
    if nodes.len() == 0 {
        Some(f)
    } else {
        match run_plan(f, nodes.drop_last()) {
            None => None,
            Some(g) => apply_node(g, nodes.last()),
        }
    }
}

fn as_strs<'a>(v: &'a Vec<String>) -> (r: Vec<&'a str>)
    ensures
        names_view(r@) == strs(v@),
{
    let mut r: Vec<&str> = Vec::new();
    let mut i: usize = 0;
    while i < v.len()
        invariant
            i <= v@.len(),
            r@.len() == i,
            forall|j: int| 0 <= j < i ==> (#[trigger] r@[j])@ == v@[j]@,
        decreases v@.len() - i,
    {
        r.push(v[i].as_str());
        i = i + 1;
    }
    assert(names_view(r@) =~= strs(v@));
    r
}

fn to_strings(v: &[&str]) -> (r: Vec<String>)
    ensures
        strs(r@) == names_view(v@),
{
    let mut r: Vec<String> = Vec::new();
    let mut i: usize = 0;
    while i < v.len()
        invariant
            i <= v@.len(),
            r@.len() == i,
            forall|j: int| 0 <= j < i ==> (#[trigger] r@[j])@ == v@[j]@,
        decreases v@.len() - i,
    {
        r.push(String::from_str(v[i]));
        i = i + 1;
    }
    assert(strs(r@) =~= names_view(v@));
    r
}

fn copy_flags(v: &[bool]) -> (r: Vec<bool>)
    ensures
        r@ == v@,
{
    let mut r: Vec<bool> = Vec::new();
    let mut i: usize = 0;
    while i < v.len()
        invariant
            i <= v@.len(),
            r@ == v@.take(i as int),
        decreases v@.len() - i,
    {
        r.push(v[i]);
        assert(r@ =~= v@.take(i + 1));
        i = i + 1;
    }
    assert(v@.take(v@.len() as int) =~= v@);
    r
}

/// Runs one node on a frame.
pub fn run_node(f: &DataFrame, node: &PlanNode) -> (r: Result<DataFrame, EngineError>)
    ensures
        r is Ok <==> apply_node(f@, *node) is Some,
        r is Ok ==> r->Ok_0@ == apply_node(f@, *node)->0,
{
    let _ = f.height();
    match node {
        PlanNode::Select(cols) => {
            let ns = as_strs(cols);
            f.select(ns.as_slice())
        },
        PlanNode::Filter(col, op, lit) => {
            let c = match f.column(col.as_str()) {
                Ok(c) => c,
                Err(e) => {
                    return Err(e);
                },
            };
            let mask = match c.compare(*op, lit) {
                Ok(m) => m,
                Err(e) => {
                    return Err(e);
                },
            };
            proof {
                let p = crate::model::col_pos(f@, col@);
                assert(f@[p].cells.len() == height(f@));
            }
            f.filter(&mask)
        },
        PlanNode::Sort(keys, desc) => {
            let ks = as_strs(keys);
            f.sort(ks.as_slice(), desc.as_slice())
        },
        PlanNode::GroupBy(keys, aggs) => {
            let ks = as_strs(keys);
            let mut av: Vec<(AggKind, &str)> = Vec::new();
            let mut i: usize = 0;
            while i < aggs.len()
                invariant
                    i <= aggs@.len(),
                    av@.len() == i,
                    forall|j: int|
                        0 <= j < i ==> (#[trigger] av@[j]).0 == aggs@[j].0 && av@[j].1@ == aggs@[j].1@,
                decreases aggs@.len() - i,
            {
                av.push((aggs[i].0, aggs[i].1.as_str()));
                i = i + 1;
            }
            assert(aggs_view(av@) =~= agg_strs(aggs@));
            f.group_by(ks.as_slice(), av.as_slice())
        },
        PlanNode::Join(right, l, r) => f.join_inner(right, l.as_str(), r.as_str()),
        PlanNode::Melt(ids, vals) => {
            let is = as_strs(ids);
            let vs = as_strs(vals);
            f.melt(is.as_slice(), vs.as_slice())
        },
        PlanNode::WithArith(name, op, l, r) => {
            let lc = match f.column(l.as_str()) {
                Ok(c) => c,
                Err(e) => {
                    return Err(e);
                },
            };
            let rc = match f.column(r.as_str()) {
                Ok(c) => c,
                Err(e) => {
                    return Err(e);
                },
            };
            proof {
                let pl = crate::model::col_pos(f@, l@);
                let pr = crate::model::col_pos(f@, r@);
                assert(f@[pl].cells.len() == height(f@));
                assert(f@[pr].cells.len() == height(f@));
            }
            let computed = match lc.arith(*op, rc) {
                Ok(s) => s,
                Err(e) => {
                    return Err(e);
                },
            };
            f.with_column(computed.rename(name.as_str()))
        },
        PlanNode::Pivot(index, columns, values, kind) => f.pivot(
            index.as_str(),
            columns.as_str(),
            values.as_str(),
            *kind,
        ),
    }
}

/// A deferred query: a source frame and the nodes to apply to it, in order.
/// Building appends a node and runs nothing; `collect` runs the plan.
pub struct LazyFrame {
    pub source: DataFrame,
    pub nodes: Vec<PlanNode>,
}

impl LazyFrame {
    /// A plan that yields `source` as it is.
    pub fn new(source: DataFrame) -> (r: LazyFrame)
        ensures
            r.source@ == source@,
            r.nodes@.len() == 0,
    {
        LazyFrame { source, nodes: Vec::new() }
    }

    /// The plan followed by a selection of the named columns.
    pub fn select(self, columns: &[&str]) -> (r: LazyFrame)
        ensures
            r.source@ == self.source@,
            r.nodes@.drop_last() == self.nodes@,
            r.nodes@.len() == self.nodes@.len() + 1,
            r.nodes@.last() is Select && strs(r.nodes@.last()->Select_0@) == names_view(columns@),
    {
        let mut nodes = self.nodes;
        nodes.push(PlanNode::Select(to_strings(columns)));
        LazyFrame { source: self.source, nodes }
    }

    /// The plan followed by a filter on `column op literal`.
    pub fn filter(self, column: &str, op: CmpOp, literal: Scalar) -> (r: LazyFrame)
        ensures
            r.source@ == self.source@,
            r.nodes@.drop_last() == self.nodes@,
            r.nodes@.len() == self.nodes@.len() + 1,
            r.nodes@.last() is Filter && r.nodes@.last()->Filter_0@ == column@
                && r.nodes@.last()->Filter_1 == op && r.nodes@.last()->Filter_2 == literal,
    {
        let mut nodes = self.nodes;
        nodes.push(PlanNode::Filter(String::from_str(column), op, literal));
        LazyFrame { source: self.source, nodes }
    }

    /// The plan followed by a stable sort.
    pub fn sort(self, keys: &[&str], descending: &[bool]) -> (r: LazyFrame)
        ensures
            r.source@ == self.source@,
            r.nodes@.drop_last() == self.nodes@,
            r.nodes@.len() == self.nodes@.len() + 1,
            r.nodes@.last() is Sort && strs(r.nodes@.last()->Sort_0@) == names_view(keys@)
                && r.nodes@.last()->Sort_1@ == descending@,
    {
        let mut nodes = self.nodes;
        nodes.push(PlanNode::Sort(to_strings(keys), copy_flags(descending)));
        LazyFrame { source: self.source, nodes }
    }

    /// The plan followed by a group-by.
    pub fn group_by(self, keys: &[&str], aggs: &[(AggKind, &str)]) -> (r: LazyFrame)
        ensures
            r.source@ == self.source@,
            r.nodes@.drop_last() == self.nodes@,
            r.nodes@.len() == self.nodes@.len() + 1,
            r.nodes@.last() is GroupBy && strs(r.nodes@.last()->GroupBy_0@) == names_view(keys@)
                && agg_strs(r.nodes@.last()->GroupBy_1@) == aggs_view(aggs@),
    {
        let mut av: Vec<(AggKind, String)> = Vec::new();
        let mut i: usize = 0;
        while i < aggs.len()
            invariant
                i <= aggs@.len(),
                av@.len() == i,
                forall|j: int|
                    0 <= j < i ==> (#[trigger] av@[j]).0 == aggs@[j].0 && av@[j].1@ == aggs@[j].1@,
            decreases aggs@.len() - i,
        {
            av.push((aggs[i].0, String::from_str(aggs[i].1)));
            i = i + 1;
        }
        assert(agg_strs(av@) =~= aggs_view(aggs@));
        let mut nodes = self.nodes;
        nodes.push(PlanNode::GroupBy(to_strings(keys), av));
        LazyFrame { source: self.source, nodes }
    }

    /// The plan followed by an inner join with `right`.
    pub fn join(self, right: DataFrame, left_on: &str, right_on: &str) -> (r: LazyFrame)
        ensures
            r.source@ == self.source@,
            r.nodes@.drop_last() == self.nodes@,
            r.nodes@.len() == self.nodes@.len() + 1,
            r.nodes@.last() is Join && r.nodes@.last()->Join_0@ == right@
                && r.nodes@.last()->Join_1@ == left_on@ && r.nodes@.last()->Join_2@ == right_on@,
    {
        let mut nodes = self.nodes;
        nodes.push(PlanNode::Join(right, String::from_str(left_on), String::from_str(right_on)));
        LazyFrame { source: self.source, nodes }
    }

    /// The plan followed by a melt.
    pub fn melt(self, id_vars: &[&str], value_vars: &[&str]) -> (r: LazyFrame)
        ensures
            r.source@ == self.source@,
            r.nodes@.drop_last() == self.nodes@,
            r.nodes@.len() == self.nodes@.len() + 1,
            r.nodes@.last() is Melt && strs(r.nodes@.last()->Melt_0@) == names_view(id_vars@)
                && strs(r.nodes@.last()->Melt_1@) == names_view(value_vars@),
    {
        let mut nodes = self.nodes;
        nodes.push(PlanNode::Melt(to_strings(id_vars), to_strings(value_vars)));
        LazyFrame { source: self.source, nodes }
    }

    /// The plan followed by a column `name` computed as `left op right`.
    pub fn with_arith(self, name: &str, op: ArithOp, left: &str, right: &str) -> (r: LazyFrame)
        ensures
            r.source@ == self.source@,
            r.nodes@.drop_last() == self.nodes@,
            r.nodes@.len() == self.nodes@.len() + 1,
            r.nodes@.last() is WithArith && r.nodes@.last()->WithArith_0@ == name@
                && r.nodes@.last()->WithArith_1 == op && r.nodes@.last()->WithArith_2@ == left@
                && r.nodes@.last()->WithArith_3@ == right@,
    {
        let mut nodes = self.nodes;
        nodes.push(
            PlanNode::WithArith(
                String::from_str(name),
                op,
                String::from_str(left),
                String::from_str(right),
            ),
        );
        LazyFrame { source: self.source, nodes }
    }

    /// The plan followed by a pivot.
    pub fn pivot(self, index: &str, columns: &str, values: &str, kind: AggKind) -> (r: LazyFrame)
        ensures
            r.source@ == self.source@,
            r.nodes@.drop_last() == self.nodes@,
            r.nodes@.len() == self.nodes@.len() + 1,
            r.nodes@.last() is Pivot && r.nodes@.last()->Pivot_0@ == index@
                && r.nodes@.last()->Pivot_1@ == columns@ && r.nodes@.last()->Pivot_2@ == values@
                && r.nodes@.last()->Pivot_3 == kind,
    {
        let mut nodes = self.nodes;
        nodes.push(
            PlanNode::Pivot(
                String::from_str(index),
                String::from_str(columns),
                String::from_str(values),
                kind,
            ),
        );
        LazyFrame { source: self.source, nodes }
    }

    /// Runs the plan: each node in turn on the result of the one before,
    /// stopping at the first error. The plan itself is left as it is, so it
    /// can run again with the same result.
    pub fn collect(&self) -> (r: Result<DataFrame, EngineError>)
        ensures
            r is Ok <==> run_plan(self.source@, self.nodes@) is Some,
            r is Ok ==> r->Ok_0@ == run_plan(self.source@, self.nodes@)->0,
    {
        let mut cur = self.source.duplicate();
        let mut i: usize = 0;
        while i < self.nodes.len()
            invariant
                i <= self.nodes@.len(),
                run_plan(self.source@, self.nodes@.take(i as int)) == Some(cur@),
            decreases self.nodes@.len() - i,
        {
            proof {
                assert(self.nodes@.take(i + 1).drop_last() =~= self.nodes@.take(i as int));
                assert(self.nodes@.take(i + 1).last() == self.nodes@[i as int]);
            }
            let next = run_node(&cur, &self.nodes[i]);
            match next {
                Ok(d) => {
                    cur = d;
                },
                Err(e) => {
                    proof {
                        lemma_run_plan_stops(self.source@, self.nodes@, (i + 1) as nat);
                    }
                    return Err(e);
                },
            }
            i = i + 1;
        }
        assert(self.nodes@.take(i as int) =~= self.nodes@);
        Ok(cur)
    }
}

proof fn lemma_run_plan_stops(f: FrameModel, nodes: Seq<PlanNode>, k: nat)
    requires
        k <= nodes.len(),
        run_plan(f, nodes.take(k as int)) is None,
    ensures
        run_plan(f, nodes) is None,
    decreases nodes.len() - k,
{
    if k < nodes.len() {
        assert(nodes.take(k as int + 1).drop_last() =~= nodes.take(k as int));
        lemma_run_plan_stops(f, nodes, k + 1);
    } else {
        assert(nodes.take(k as int) =~= nodes);
    }
}

} // verus!
