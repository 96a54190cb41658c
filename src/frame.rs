use vstd::prelude::*;
use crate::error::EngineError;
use crate::model::{
    all_present, col_of, col_pos, column_wf, complete_rows, distinct, frame_wf, has_col, height,
    lemma_col_pos, lemma_complete_rows_bounded, mask_rows, names_unique, row_complete,
    rows_in_bounds, same_height, select_frame, take_column, take_frame, with_col, ColumnModel,
    DataType, FrameModel,
};
use crate::model::{
    drop_named, join_clash, join_frame, join_rows, lemma_drop_named_members, lemma_drop_named_wf,
    matches_upto,
};
use crate::model::{
    lemma_melt_lengths, lemma_repeat_rows, melt_frame, melt_names, melt_values,
    repeat_rows, uniform_type, value_name, variable_name, Datum,
};
use crate::model::{
    agg_cols_present, agg_init, agg_overflow, agg_states, agg_step, agg_types_ok, any_overflow,
    find_from, fits_i64, group_firsts, group_frame, group_id, kind_name, lemma_agg_states_len,
    lemma_find_from, lemma_group_firsts, lemma_overflow_mono, row_key, agg_column, agg_name, AggKind,
};
use crate::model::{
    cell_text, marked, marks, pivot_cells, pivot_frame, pivot_overflow, spread_cells,
};
use crate::model::{insert_pos, lemma_insert_pos, lemma_sort_rows, row_cmp, sort_rows};
use crate::series::{all_of_type, cell_compare, cells_view, key_match, opt_eq, opt_view, Scalar, Series};
use crate::text::text_eq;

verus! {

pub open spec fn views(v: Seq<Series>) -> FrameModel {
    v.map_values(|s: Series| s@)
}

pub open spec fn names_view(names: Seq<&str>) -> Seq<Seq<char>> {
    names.map_values(|s: &str| s@)
}

/// An ordered collection of equal-length, uniquely named columns.
pub struct DataFrame {
    columns: Vec<Series>,
}

impl View for DataFrame {
    type V = FrameModel;

    closed spec fn view(&self) -> FrameModel {
        views(self.columns@)
    }
}

impl DataFrame {
    #[verifier::type_invariant]
    closed spec fn inv(self) -> bool {
        frame_wf(views(self.columns@))
    }

    /// A frame of the given columns: `ShapeError` when their lengths differ,
    /// else `SchemaError` when two share a name.
    pub fn new(columns: Vec<Series>) -> (r: Result<DataFrame, EngineError>)
        ensures
            r is Ok <==> same_height(views(columns@)) && names_unique(views(columns@)),
            r is Ok ==> r->Ok_0@ == views(columns@) && frame_wf(r->Ok_0@),
            r is Err ==> (r->Err_0 is ShapeError <==> !same_height(views(columns@))),
            r is Err ==> (r->Err_0 is SchemaError <==> same_height(views(columns@))),
    {
        let ghost f = views(columns@);
        let n = columns.len();
        let mut i: usize = 0;
        while i < n
            invariant
                i <= n == columns@.len() == f.len(),
                f == views(columns@),
                forall|j: int| 0 <= j < i ==> (#[trigger] f[j]).cells.len() == f[0].cells.len(),
            decreases n - i,
        {
            if columns[i].len() != columns[0].len() {
                assert(f[i as int].cells.len() != f[0].cells.len());
                return Err(EngineError::ShapeError);
            }
            i = i + 1;
        }
        assert(same_height(f));
        let mut i: usize = 0;
        while i < n
            invariant
                i <= n == columns@.len() == f.len(),
                f == views(columns@),
                same_height(f),
                forall|a: int, b: int|
                    0 <= a < i && 0 <= b < n && a != b ==> (#[trigger] f[a]).name != (
                    #[trigger] f[b]).name,
            decreases n - i,
        {
            let mut j: usize = 0;
            while j < n
                invariant
                    i < n == columns@.len() == f.len(),
                    j <= n,
                    f == views(columns@),
                    same_height(f),
                    forall|a: int, b: int|
                        0 <= a < i && 0 <= b < n && a != b ==> (#[trigger] f[a]).name != (
                        #[trigger] f[b]).name,
                    forall|b: int| 0 <= b < j && b != i ==> f[i as int].name != (#[trigger] f[b]).name,
                decreases n - j,
            {
                if i != j && text_eq(columns[i].name().as_str(), columns[j].name().as_str()) {
                    assert(f[i as int].name == f[j as int].name);
                    return Err(EngineError::SchemaError);
                }
                j = j + 1;
            }
            i = i + 1;
        }
        proof {
            assert forall|k: int| 0 <= k < f.len() implies column_wf(#[trigger] f[k]) by {
                columns@[k].lemma_wf();
            }
        }
        Ok(DataFrame { columns })
    }

    /// The number of rows.
    pub fn height(&self) -> (r: usize)
        ensures
            r == height(self@),
            frame_wf(self@),
    {
        proof {
            use_type_invariant(self);
        }
        if self.columns.len() == 0 {
            0
        } else {
            self.columns[0].len()
        }
    }

    /// A copy of the frame.
    pub fn duplicate(&self) -> (r: DataFrame)
        ensures
            r@ == self@,
            frame_wf(r@),
    {
        let n = self.height();
        let mut rows: Vec<usize> = Vec::new();
        let mut k: usize = 0;
        while k < n
            invariant
                k <= n,
                rows@.len() == k,
                forall|j: int| 0 <= j < k ==> rows@[j] == j,
            decreases n - k,
        {
            rows.push(k);
            k = k + 1;
        }
        let r = self.take(&rows);
        proof {
            let f = self@;
            assert forall|c: int| 0 <= c < f.len() implies #[trigger] r@[c] == f[c] by {
                assert(f[c].cells.len() == height(f));
                assert(r@[c].cells =~= f[c].cells);
            }
            assert(r@ =~= f);
        }
        r
    }

    /// The number of columns.
    pub fn width(&self) -> (r: usize)
        ensures
            r == self@.len(),
    {
        self.columns.len()
    }

    /// The columns in order.
    pub fn columns(&self) -> (r: &Vec<Series>)
        ensures
            views(r@) == self@,
    {
        &self.columns
    }

    /// The position of the column of the given name, if there is one.
    pub fn column_index(&self, name: &str) -> (r: Option<usize>)
        ensures
            r is None <==> !has_col(self@, name@),
            r is Some ==> r->0 < self@.len() && self@[r->0 as int].name == name@ && col_pos(
                self@,
                name@,
            ) == r->0,
    {
        proof {
            use_type_invariant(self);
        }
        let mut i: usize = 0;
        while i < self.columns.len()
            invariant
                i <= self@.len() == self.columns@.len(),
                frame_wf(self@),
                forall|j: int| 0 <= j < i ==> (#[trigger] self@[j]).name != name@,
            decreases self@.len() - i,
        {
            if text_eq(self.columns[i].name().as_str(), name) {
                proof {
                    lemma_col_pos(self@, i as int);
                }
                return Some(i);
            }
            i = i + 1;
        }
        None
    }

    /// The column of the given name; `KeyError` when there is none.
    pub fn column(&self, name: &str) -> (r: Result<&Series, EngineError>)
        ensures
            r is Ok <==> has_col(self@, name@),
            r is Ok ==> r->Ok_0@ == col_of(self@, name@),
            r is Err ==> r->Err_0 is KeyError,
    {
        match self.column_index(name) {
            Some(i) => Ok(&self.columns[i]),
            None => Err(EngineError::KeyError),
        }
    }

    /// The given rows of every column, in the given order.
    pub fn take(&self, rows: &Vec<usize>) -> (r: DataFrame)
        requires
            self@.len() == 0 || rows_in_bounds(rows@, height(self@)),
        ensures
            r@ == take_frame(self@, rows@),
            frame_wf(r@),
    {
        proof {
            use_type_invariant(self);
        }
        let ghost f = self@;
        let mut out: Vec<Series> = Vec::new();
        let mut i: usize = 0;
        while i < self.columns.len()
            invariant
                i <= f.len() == self.columns@.len(),
                f == self@,
                frame_wf(f),
                f.len() == 0 || rows_in_bounds(rows@, height(f)),
                out@.len() == i,
                forall|j: int| 0 <= j < i ==> (#[trigger] out@[j])@ == take_column(f[j], rows@),
            decreases f.len() - i,
        {
            assert(f[i as int].cells.len() == height(f));
            out.push(self.columns[i].take(rows));
            i = i + 1;
        }
        let ghost g = views(out@);
        proof {
            assert(g =~= take_frame(f, rows@));
            assert forall|k: int| 0 <= k < g.len() implies column_wf(#[trigger] g[k]) by {
                out@[k].lemma_wf();
            }
            assert forall|a: int, b: int|
                0 <= a < g.len() && 0 <= b < g.len() && a != b implies (#[trigger] g[a]).name != (
                #[trigger] g[b]).name by {
                assert(f[a].name != f[b].name);
            }
        }
        DataFrame { columns: out }
    }

    /// The rows where `mask` holds a present `true`; `ShapeError` when the
    /// mask is not a `Boolean` column as long as the frame.
    pub fn filter(&self, mask: &Series) -> (r: Result<DataFrame, EngineError>)
        ensures
            r is Ok <==> mask@.dtype == DataType::Boolean && mask@.cells.len() == height(self@),
            r is Ok ==> r->Ok_0@ == take_frame(self@, mask_rows(mask@.cells)) && frame_wf(
                r->Ok_0@,
            ),
            r is Err ==> r->Err_0 is ShapeError,
    {
        if mask.dtype() != DataType::Boolean || mask.len() != self.height() {
            return Err(EngineError::ShapeError);
        }
        let rows = mask.true_rows();
        Ok(self.take(&rows))
    }

    /// The named columns, in the order named: `KeyError` when one is absent,
    /// else `SchemaError` when a name is repeated.
    pub fn select(&self, names: &[&str]) -> (r: Result<DataFrame, EngineError>)
        ensures
            r is Ok <==> all_present(self@, names_view(names@)) && distinct(names_view(names@)),
            r is Ok ==> r->Ok_0@ == select_frame(self@, names_view(names@)) && frame_wf(
                r->Ok_0@,
            ),
            r is Err ==> (r->Err_0 is KeyError <==> !all_present(self@, names_view(names@))),
            r is Err ==> (r->Err_0 is SchemaError <==> all_present(self@, names_view(names@))),
    {
        proof {
            use_type_invariant(self);
        }
        let ghost f = self@;
        let ghost nv = names_view(names@);
        let mut out: Vec<Series> = Vec::new();
        let mut k: usize = 0;
        while k < names.len()
            invariant
                k <= names@.len() == nv.len(),
                f == self@,
                nv == names_view(names@),
                frame_wf(f),
                out@.len() == k,
                forall|j: int| 0 <= j < k ==> has_col(f, #[trigger] nv[j]),
                forall|j: int| 0 <= j < k ==> (#[trigger] out@[j])@ == col_of(f, nv[j]),
            decreases names@.len() - k,
        {
            assert(nv[k as int] == names@[k as int]@);
            match self.column_index(names[k]) {
                None => {
                    assert(!has_col(f, nv[k as int]));
                    return Err(EngineError::KeyError);
                },
                Some(i) => {
                    proof {
                        lemma_col_pos(f, i as int);
                    }
                    out.push(self.columns[i].duplicate());
                },
            }
            k = k + 1;
        }
        assert(all_present(f, nv));
        let mut a: usize = 0;
        while a < names.len()
            invariant
                a <= names@.len() == nv.len(),
                nv == names_view(names@),
                f == self@,
                all_present(f, nv),
                forall|x: int, y: int|
                    0 <= x < a && 0 <= y < nv.len() && x != y ==> nv[x] != nv[y],
            decreases names@.len() - a,
        {
            let mut b: usize = 0;
            while b < names.len()
                invariant
                    a < names@.len() == nv.len(),
                    b <= names@.len(),
                    nv == names_view(names@),
                    f == self@,
                    all_present(f, nv),
                    forall|x: int, y: int|
                        0 <= x < a && 0 <= y < nv.len() && x != y ==> nv[x] != nv[y],
                    forall|y: int| 0 <= y < b && y != a ==> nv[a as int] != nv[y],
                decreases names@.len() - b,
            {
                if a != b && text_eq(names[a], names[b]) {
                    assert(nv[a as int] == nv[b as int]);
                    return Err(EngineError::SchemaError);
                }
                b = b + 1;
            }
            a = a + 1;
        }
        let ghost g = views(out@);
        proof {
            assert(g =~= select_frame(f, nv));
            assert forall|k: int| 0 <= k < g.len() implies column_wf(#[trigger] g[k]) by {
                out@[k].lemma_wf();
            }
            assert forall|x: int, y: int|
                0 <= x < g.len() && 0 <= y < g.len() implies (#[trigger] g[x]).cells.len() == (
                #[trigger] g[y]).cells.len() by {
                assert(g[x] == f[col_pos(f, nv[x])]);
                assert(g[y] == f[col_pos(f, nv[y])]);
            }
            assert forall|x: int, y: int|
                0 <= x < g.len() && 0 <= y < g.len() && x != y implies (#[trigger] g[x]).name != (
                #[trigger] g[y]).name by {
                assert(g[x].name == nv[x]);
                assert(g[y].name == nv[y]);
            }
        }
        Ok(DataFrame { columns: out })
    }

    /// The frame without the rows where one of the `subset` columns (all
    /// columns when `None`) is null, in their order; `KeyError` when a named
    /// column is absent.
    pub fn drop_nulls(&self, subset: Option<&[&str]>) -> (r: Result<DataFrame, EngineError>)
        ensures
            r is Ok <==> (subset is None || all_present(self@, names_view(subset->0@))),
            r is Ok ==> frame_wf(r->Ok_0@) && r->Ok_0@ == take_frame(
                self@,
                complete_rows(
                    match subset {
                        Some(s) => select_frame(self@, names_view(s@)),
                        None => self@,
                    },
                    height(self@),
                ),
            ),
            r is Err ==> r->Err_0 is KeyError,
    {
        proof {
            use_type_invariant(self);
        }
        let ghost f = self@;
        let mut cols: Vec<usize> = Vec::new();
        match subset {
            None => {
                let mut c: usize = 0;
                while c < self.columns.len()
                    invariant
                        c <= f.len() == self.columns@.len(),
                        cols@.len() == c,
                        forall|j: int| 0 <= j < c ==> cols@[j] == j,
                    decreases f.len() - c,
                {
                    cols.push(c);
                    c = c + 1;
                }
            },
            Some(names) => {
                let mut k: usize = 0;
                while k < names.len()
                    invariant
                        k <= names@.len(),
                        subset == Some(names),
                        f == self@,
                        frame_wf(f),
                        cols@.len() == k,
                        forall|j: int| 0 <= j < k ==> has_col(f, #[trigger] names_view(names@)[j]),
                        forall|j: int|
                            0 <= j < k ==> #[trigger] cols@[j] == col_pos(f, names_view(names@)[j])
                                && cols@[j] < f.len(),
                    decreases names@.len() - k,
                {
                    assert(names_view(names@)[k as int] == names@[k as int]@);
                    match self.column_index(names[k]) {
                        None => {
                            assert(!has_col(f, names_view(names@)[k as int]));
                            assert(!all_present(self@, names_view(names@)));
                            return Err(EngineError::KeyError);
                        },
                        Some(i) => {
                            cols.push(i);
                        },
                    }
                    k = k + 1;
                }
            },
        }
        let ghost sel = match subset {
            Some(s) => select_frame(f, names_view(s@)),
            None => f,
        };
        assert(sel.len() == cols@.len());
        assert(forall|j: int| 0 <= j < cols@.len() ==> cols@[j] < f.len() && sel[j] == f[
            #[trigger] cols@[j] as int]);
        let n = self.height();
        let mut rows: Vec<usize> = Vec::new();
        let mut i: usize = 0;
        while i < n
            invariant
                i <= n == height(f),
                f == self@,
                frame_wf(f),
                sel.len() == cols@.len(),
                forall|j: int|
                    0 <= j < cols@.len() ==> cols@[j] < f.len() && sel[j] == f[
                        #[trigger] cols@[j] as int],
                rows@ == complete_rows(sel, i as nat),
            decreases n - i,
        {
            let mut all: bool = true;
            let mut c: usize = 0;
            while c < cols.len()
                invariant
                    i < n == height(f),
                    f == self@,
                    frame_wf(f),
                    c <= cols@.len() == sel.len(),
                    forall|j: int|
                        0 <= j < cols@.len() ==> cols@[j] < f.len() && sel[j] == f[
                            #[trigger] cols@[j] as int],
                    all == (forall|j: int| 0 <= j < c ==> (#[trigger] sel[j]).cells[i as int] is Some),
                decreases cols@.len() - c,
            {
                assert(sel[c as int] == f[cols@[c as int] as int]);
                assert(f[cols@[c as int] as int].cells.len() == height(f));
                if self.columns[cols[c]].get(i).is_none() {
                    all = false;
                }
                c = c + 1;
            }
            assert(all == row_complete(sel, i as int));
            if all {
                rows.push(i);
            }
            i = i + 1;
        }
        proof {
            lemma_complete_rows_bounded(sel, height(f));
        }
        Ok(self.take(&rows))
    }

    /// The frame with `column` in place of the column of its name, or added
    /// last; `ShapeError` when the frame has columns of another length.
    pub fn with_column(&self, column: Series) -> (r: Result<DataFrame, EngineError>)
        ensures
            r is Ok <==> (self@.len() == 0 || column@.cells.len() == height(self@)),
            r is Ok ==> r->Ok_0@ == with_col(self@, column@) && frame_wf(r->Ok_0@),
            r is Err ==> r->Err_0 is ShapeError,
    {
        proof {
            use_type_invariant(self);
        }
        let ghost f = self@;
        if self.columns.len() != 0 && column.len() != self.height() {
            return Err(EngineError::ShapeError);
        }
        let mut out: Vec<Series> = Vec::new();
        let mut i: usize = 0;
        while i < self.columns.len()
            invariant
                i <= f.len() == self.columns@.len(),
                f == self@,
                out@.len() == i,
                forall|j: int| 0 <= j < i ==> (#[trigger] out@[j])@ == f[j],
            decreases f.len() - i,
        {
            out.push(self.columns[i].duplicate());
            i = i + 1;
        }
        let pos = self.column_index(column.name().as_str());
        let ghost c = column@;
        proof {
            column.lemma_wf();
        }
        match pos {
            Some(p) => {
                out.set(p, column);
            },
            None => {
                out.push(column);
            },
        }
        let ghost g = views(out@);
        proof {
            assert(g =~= with_col(f, c));
            assert forall|k: int| 0 <= k < g.len() implies column_wf(#[trigger] g[k]) by {
                out@[k].lemma_wf();
            }
            assert forall|x: int, y: int|
                0 <= x < g.len() && 0 <= y < g.len() implies (#[trigger] g[x]).cells.len() == (
                #[trigger] g[y]).cells.len() by {
                if f.len() > 0 {
                    assert(f[0].cells.len() == height(f));
                }
            }
        }
        Ok(DataFrame { columns: out })
    }

    /// The inner join with `other` on `left_on` = `right_on`: for each left
    /// row in order, each right row whose key is present and equal, in order;
    /// the columns are this frame's, then `other`'s but its key. `KeyError`
    /// when a key column is absent, else `SchemaError` when a kept right
    /// column has the name of a left one.
    pub fn join_inner(&self, other: &DataFrame, left_on: &str, right_on: &str) -> (r: Result<
        DataFrame,
        EngineError,
    >)
        ensures
            r is Ok <==> has_col(self@, left_on@) && has_col(other@, right_on@) && !join_clash(
                self@,
                other@,
                right_on@,
            ),
            r is Ok ==> r->Ok_0@ == join_frame(self@, other@, left_on@, right_on@) && frame_wf(
                r->Ok_0@,
            ),
            r is Err ==> (r->Err_0 is KeyError <==> !(has_col(self@, left_on@) && has_col(
                other@,
                right_on@,
            ))),
            r is Err ==> (r->Err_0 is SchemaError <==> (has_col(self@, left_on@) && has_col(
                other@,
                right_on@,
            ))),
    {
        proof {
            use_type_invariant(self);
            use_type_invariant(other);
        }
        let ghost l = self@;
        let ghost rf = other@;
        let li = match self.column_index(left_on) {
            None => {
                return Err(EngineError::KeyError);
            },
            Some(i) => i,
        };
        let ri = match other.column_index(right_on) {
            None => {
                return Err(EngineError::KeyError);
            },
            Some(i) => i,
        };
        let ghost key = right_on@;
        let mut rest: Vec<usize> = Vec::new();
        let mut c: usize = 0;
        while c < other.columns.len()
            invariant
                c <= rf.len() == other.columns@.len(),
                rf == other@,
                key == right_on@,
                rest@.map_values(|p: usize| rf[p as int]) == drop_named(rf.take(c as int), key),
                forall|k: int| 0 <= k < rest@.len() ==> #[trigger] rest@[k] < c,
            decreases rf.len() - c,
        {
            proof {
                assert(rf.take(c + 1).drop_last() =~= rf.take(c as int));
            }
            let ghost before = rest@;
            proof {
                assert(rf.take(c + 1).last() == rf[c as int]);
                assert(drop_named(rf.take(c + 1), key) == if rf[c as int].name == key {
                    drop_named(rf.take(c as int), key)
                } else {
                    drop_named(rf.take(c as int), key).push(rf[c as int])
                });
            }
            if !crate::text::text_eq(other.columns[c].name().as_str(), right_on) {
                rest.push(c);
                assert(rest@.map_values(|p: usize| rf[p as int]) =~= before.map_values(
                    |p: usize| rf[p as int],
                ).push(rf[c as int]));
            }
            c = c + 1;
        }
        assert(rf.take(rf.len() as int) =~= rf);
        let ghost d = drop_named(rf, key);
        proof {
            lemma_drop_named_wf(rf, key);
            lemma_drop_named_members(rf, key);
        }
        let mut k: usize = 0;
        while k < rest.len()
            invariant
                k <= rest@.len() == d.len(),
                rf == other@,
                l == self@,
                frame_wf(l),
                has_col(l, left_on@),
                has_col(rf, right_on@),
                d == drop_named(rf, right_on@),
                forall|x: int| 0 <= x < rest@.len() ==> #[trigger] rest@[x] < rf.len(),
                forall|x: int| 0 <= x < rest@.len() ==> #[trigger] d[x] == rf[rest@[x] as int],
                forall|x: int| 0 <= x < k ==> !has_col(l, (#[trigger] d[x]).name),
            decreases rest@.len() - k,
        {
            assert(d[k as int] == rf[rest@[k as int] as int]);
            if self.column_index(other.columns[rest[k]].name().as_str()).is_some() {
                assert(has_col(l, d[k as int].name));
                return Err(EngineError::SchemaError);
            }
            k = k + 1;
        }
        let ghost lk = l[li as int].cells;
        let ghost rk = rf[ri as int].cells;
        let nl = self.height();
        let nr = other.height();
        proof {
            assert(l[li as int].cells.len() == height(l));
            assert(rf[ri as int].cells.len() == height(rf));
        }
        let mut lefts: Vec<usize> = Vec::new();
        let mut rights: Vec<usize> = Vec::new();
        let mut i: usize = 0;
        while i < nl
            invariant
                i <= nl == lk.len() == height(l),
                nr == rk.len(),
                li < l.len() && ri < rf.len(),
                l == self@ && rf == other@,
                lk == l[li as int].cells && rk == rf[ri as int].cells,
                lefts@ == join_rows(lk, rk, i as nat).0,
                rights@ == join_rows(lk, rk, i as nat).1,
                lefts@.len() == rights@.len(),
                rows_in_bounds(lefts@, nl as nat),
                rows_in_bounds(rights@, nr as nat),
            decreases nl - i,
        {
            let lv = self.columns[li].get(i);
            let ghost l0 = lefts@;
            let ghost r0 = rights@;
            let mut j: usize = 0;
            while j < nr
                invariant
                    i < nl == lk.len(),
                    j <= nr == rk.len(),
                    ri < rf.len(),
                    rf == other@,
                    rk == rf[ri as int].cells,
                    opt_view(lv) == lk[i as int],
                    lefts@ == l0 + Seq::new(
                        matches_upto(lk[i as int], rk, j as nat).len(),
                        |x: int| i,
                    ),
                    rights@ == r0 + matches_upto(lk[i as int], rk, j as nat),
                    rows_in_bounds(lefts@, nl as nat),
                    rows_in_bounds(rights@, nr as nat),
                decreases nr - j,
            {
                let rv = other.columns[ri].get(j);
                if key_match(&lv, &rv) {
                    let ghost ms = matches_upto(lk[i as int], rk, j as nat);
                    lefts.push(i);
                    rights.push(j);
                    assert(lefts@ =~= l0 + Seq::new(
                        matches_upto(lk[i as int], rk, (j + 1) as nat).len(),
                        |x: int| i,
                    ));
                    assert(rights@ =~= r0 + matches_upto(lk[i as int], rk, (j + 1) as nat));
                }
                j = j + 1;
            }
            proof {
                let ms = matches_upto(lk[i as int], rk, rk.len());
                assert(join_rows(lk, rk, (i + 1) as nat).0 =~= l0 + Seq::new(ms.len(), |x: int| i));
                assert(join_rows(lk, rk, (i + 1) as nat).1 =~= r0 + ms);
            }
            i = i + 1;
        }
        let mut out: Vec<Series> = Vec::new();
        let mut c: usize = 0;
        while c < self.columns.len()
            invariant
                c <= l.len() == self.columns@.len(),
                l == self@,
                frame_wf(l),
                rows_in_bounds(lefts@, height(l)),
                out@.len() == c,
                forall|x: int| 0 <= x < c ==> (#[trigger] out@[x])@ == take_column(l[x], lefts@),
            decreases l.len() - c,
        {
            assert(l[c as int].cells.len() == height(l));
            out.push(self.columns[c].take(&lefts));
            c = c + 1;
        }
        let mut k: usize = 0;
        while k < rest.len()
            invariant
                k <= rest@.len() == d.len(),
                rf == other@,
                l.len() == self.columns@.len(),
                rf.len() > 0,
                forall|x: int| 0 <= x < rest@.len() ==> #[trigger] rest@[x] < rf.len(),
                forall|x: int| 0 <= x < rest@.len() ==> #[trigger] d[x] == rf[rest@[x] as int],
                forall|x: int| 0 <= x < d.len() ==> (#[trigger] d[x]).cells.len() == height(rf),
                rows_in_bounds(rights@, height(rf)),
                out@.len() == l.len() + k,
                forall|x: int| 0 <= x < l.len() ==> (#[trigger] out@[x])@ == take_column(l[x], lefts@),
                forall|x: int|
                    0 <= x < k ==> (#[trigger] out@[l.len() + x])@ == take_column(d[x], rights@),
            decreases rest@.len() - k,
        {
            assert(d[k as int] == rf[rest@[k as int] as int]);
            out.push(other.columns[rest[k]].take(&rights));
            k = k + 1;
        }
        let ghost g = views(out@);
        proof {
            assert(col_of(l, left_on@) == l[li as int]);
            assert(col_of(rf, right_on@) == rf[ri as int]);
            let rows = join_rows(col_of(l, left_on@).cells, col_of(rf, right_on@).cells, height(l));
            assert(lefts@ == rows.0);
            assert(rights@ == rows.1);
            let jf = join_frame(l, rf, left_on@, right_on@);
            assert(jf == take_frame(l, rows.0) + take_frame(d, rows.1));
            assert(g.len() == jf.len());
            assert forall|x: int| 0 <= x < g.len() implies #[trigger] g[x] == jf[x] by {
                if x < l.len() {
                    assert(g[x] == out@[x]@);
                } else {
                    assert(g[x] == out@[l.len() + (x - l.len())]@);
                }
            }
            assert(g =~= jf);
            assert forall|x: int| 0 <= x < g.len() implies column_wf(#[trigger] g[x]) by {
                out@[x].lemma_wf();
            }
            assert forall|a: int, b: int|
                0 <= a < g.len() && 0 <= b < g.len() implies (#[trigger] g[a]).cells.len() == (
                #[trigger] g[b]).cells.len() by {
            }
            assert forall|a: int, b: int|
                0 <= a < g.len() && 0 <= b < g.len() && a != b implies (#[trigger] g[a]).name != (
                #[trigger] g[b]).name by {
                if a < l.len() && b < l.len() {
                } else if a >= l.len() && b >= l.len() {
                    assert(g[a].name == d[a - l.len()].name);
                    assert(g[b].name == d[b - l.len()].name);
                } else if a < l.len() {
                    assert(g[b].name == d[b - l.len()].name);
                    if g[a].name == g[b].name {
                        assert(has_col(l, d[b - l.len()].name));
                    }
                } else {
                    assert(g[a].name == d[a - l.len()].name);
                    if g[a].name == g[b].name {
                        assert(has_col(l, d[a - l.len()].name));
                    }
                }
            }
        }
        Ok(DataFrame { columns: out })
    }

    /// Melt (unpivot) on the `id_vars` columns and the `value_vars` columns:
    /// `KeyError` when a named column is absent, else `SchemaError` when an id
    /// name repeats or is `variable` or `value`.
    pub fn melt(&self, id_vars: &[&str], value_vars: &[&str]) -> (r: Result<DataFrame, EngineError>)
        ensures
            r is Ok <==> all_present(self@, names_view(id_vars@)) && all_present(
                self@,
                names_view(value_vars@),
            ) && distinct(names_view(id_vars@)) && no_reserved(names_view(id_vars@)),
            r is Ok ==> r->Ok_0@ == melt_frame(
                self@,
                names_view(id_vars@),
                names_view(value_vars@),
            ) && frame_wf(r->Ok_0@),
            r is Err ==> (r->Err_0 is KeyError <==> !(all_present(self@, names_view(id_vars@))
                && all_present(self@, names_view(value_vars@)))),
            r is Err ==> (r->Err_0 is SchemaError <==> (all_present(self@, names_view(id_vars@))
                && all_present(self@, names_view(value_vars@)))),
    {
        proof {
            use_type_invariant(self);
        }
        let ghost f = self@;
        let ghost ids = names_view(id_vars@);
        let ghost vals = names_view(value_vars@);
        let mut vpos: Vec<usize> = Vec::new();
        let mut k: usize = 0;
        while k < value_vars.len()
            invariant
                k <= value_vars@.len() == vals.len(),
                f == self@,
                frame_wf(f),
                vals == names_view(value_vars@),
                vpos@.len() == k,
                forall|j: int| 0 <= j < k ==> has_col(f, #[trigger] vals[j]),
                forall|j: int|
                    0 <= j < k ==> #[trigger] vpos@[j] == col_pos(f, vals[j]) && vpos@[j] < f.len(),
            decreases value_vars@.len() - k,
        {
            assert(vals[k as int] == value_vars@[k as int]@);
            match self.column_index(value_vars[k]) {
                None => {
                    assert(!has_col(f, vals[k as int]));
                    return Err(EngineError::KeyError);
                },
                Some(i) => {
                    vpos.push(i);
                },
            }
            k = k + 1;
        }
        let idf = match self.select(id_vars) {
            Err(e) => {
                return Err(e);
            },
            Ok(d) => d,
        };
        let var_name = String::from_str("variable");
        let val_name = String::from_str("value");
        proof {
            reveal_strlit("variable");
            reveal_strlit("value");
            assert(var_name@ =~= variable_name());
            assert(val_name@ =~= value_name());
        }
        let mut k: usize = 0;
        while k < id_vars.len()
            invariant
                k <= id_vars@.len() == ids.len(),
                ids == names_view(id_vars@),
                f == self@,
                vals == names_view(value_vars@),
                all_present(f, ids),
                all_present(f, vals),
                var_name@ == variable_name(),
                val_name@ == value_name(),
                no_reserved(ids.take(k as int)),
            decreases id_vars@.len() - k,
        {
            assert(ids[k as int] == id_vars@[k as int]@);
            if text_eq(id_vars[k], var_name.as_str()) || text_eq(id_vars[k], val_name.as_str()) {
                assert(!no_reserved(ids)) by {
                    assert(ids[k as int] == variable_name() || ids[k as int] == value_name());
                }
                return Err(EngineError::SchemaError);
            }
            proof {
                assert forall|j: int| 0 <= j < k + 1 implies #[trigger] ids.take(k + 1)[j]
                    != variable_name() && ids.take(k + 1)[j] != value_name() by {
                    if j < k {
                        assert(ids.take(k + 1)[j] == ids.take(k as int)[j]);
                    }
                }
            }
            k = k + 1;
        }
        assert(ids.take(ids.len() as int) =~= ids);
        let n = self.height();
        let nv = value_vars.len();
        let mut rows: Vec<usize> = Vec::new();
        let mut b: usize = 0;
        while b < nv
            invariant
                b <= nv,
                rows@ == repeat_rows(n as nat, b as nat),
            decreases nv - b,
        {
            let mut j: usize = 0;
            while j < n
                invariant
                    b < nv,
                    j <= n,
                    rows@ == repeat_rows(n as nat, b as nat) + Seq::new(j as nat, |x: int| x as usize),
                decreases n - j,
            {
                rows.push(j);
                assert(rows@ =~= repeat_rows(n as nat, b as nat) + Seq::new((j + 1) as nat, |x: int| x as usize));
                j = j + 1;
            }
            assert(rows@ =~= repeat_rows(n as nat, (b + 1) as nat));
            b = b + 1;
        }
        proof {
            lemma_repeat_rows(n as nat, nv as nat);
            lemma_melt_lengths(f, vals, !uniform_type(f, vals));
            if ids.len() > 0 {
                assert(has_col(f, ids[0]));
                assert(f[col_pos(f, ids[0])].cells.len() == height(f));
                assert(height(select_frame(f, ids)) == height(f));
            }
        }
        let idpart = idf.take(&rows);
        let mut out: Vec<Series> = Vec::new();
        let mut c: usize = 0;
        while c < idpart.columns.len()
            invariant
                c <= idpart@.len() == idpart.columns@.len(),
                out@.len() == c,
                forall|x: int| 0 <= x < c ==> (#[trigger] out@[x])@ == idpart@[x],
            decreases idpart@.len() - c,
        {
            out.push(idpart.columns[c].duplicate());
            c = c + 1;
        }
        // the variable column
        let mut items: Vec<Option<Scalar>> = Vec::new();
        let mut b: usize = 0;
        while b < nv
            invariant
                b <= nv == vals.len(),
                vals == names_view(value_vars@),
                all_of_type(items@, DataType::Utf8),
                cells_view(items@) == melt_names(vals.take(b as int), n as nat),
            decreases nv - b,
        {
            let ghost before = cells_view(items@);
            let mut j: usize = 0;
            while j < n
                invariant
                    b < nv == vals.len(),
                    j <= n,
                    vals == names_view(value_vars@),
                    all_of_type(items@, DataType::Utf8),
                    cells_view(items@) == before + Seq::new(
                        j as nat,
                        |x: int| Some(Datum::Text(vals[b as int])),
                    ),
                decreases n - j,
            {
                let t = String::from_str(value_vars[b]);
                assert(t@ == vals[b as int]);
                let ghost old_items = items@;
                items.push(Some(Scalar::Text(t)));
                assert(cells_view(items@) =~= cells_view(old_items).push(
                    Some(Datum::Text(vals[b as int])),
                ));
                assert(cells_view(items@) =~= before + Seq::new(
                    (j + 1) as nat,
                    |x: int| Some(Datum::Text(vals[b as int])),
                ));
                j = j + 1;
            }
            proof {
                assert(vals.take(b + 1).drop_last() =~= vals.take(b as int));
                assert(vals.take(b + 1).last() == vals[b as int]);
            }
            b = b + 1;
        }
        assert(vals.take(nv as int) =~= vals);
        let var_col = Series::build(var_name.as_str(), DataType::Utf8, &items);
        // the value column
        let mut uniform: bool = nv > 0;
        let mut b: usize = 1;
        while b < nv
            invariant
                1 <= b,
                b <= nv || nv == 0,
                nv == vals.len() == vpos@.len(),
                f == self@,
                forall|j: int| 0 <= j < nv ==> #[trigger] vpos@[j] == col_pos(f, vals[j]) && vpos@[j] < f.len(),
                uniform == (nv > 0 && forall|j: int| 0 <= j < b ==> (#[trigger] col_of(f, vals[j])).dtype == col_of(f, vals[0]).dtype),
            decreases nv - b,
        {
            proof {
                assert(col_of(f, vals[b as int]) == f[vpos@[b as int] as int]);
                assert(col_of(f, vals[0]) == f[vpos@[0] as int]);
            }
            if self.columns[vpos[b]].dtype() != self.columns[vpos[0]].dtype() {
                uniform = false;
            }
            b = b + 1;
        }
        assert(uniform == uniform_type(f, vals));
        let vt = if uniform {
            self.columns[vpos[0]].dtype()
        } else {
            DataType::Utf8
        };
        let mut acc = Series::build(val_name.as_str(), vt, &Vec::new());
        assert(cells_view(Seq::<Option<Scalar>>::empty()) =~= Seq::<Option<Datum>>::empty());
        let mut b: usize = 0;
        while b < nv
            invariant
                b <= nv == vals.len() == vpos@.len(),
                f == self@,
                frame_wf(f),
                uniform == uniform_type(f, vals),
                vt == (if uniform { col_of(f, vals[0]).dtype } else { DataType::Utf8 }),
                forall|j: int| 0 <= j < nv ==> #[trigger] vpos@[j] == col_pos(f, vals[j]) && vpos@[j] < f.len(),
                forall|j: int| 0 <= j < nv ==> has_col(f, #[trigger] vals[j]),
                acc@ == (ColumnModel {
                    name: value_name(),
                    dtype: vt,
                    cells: melt_values(f, vals.take(b as int), !uniform),
                }),
            decreases nv - b,
        {
            let block = if uniform {
                self.columns[vpos[b]].duplicate()
            } else {
                self.columns[vpos[b]].cast_text()
            };
            proof {
                assert(col_of(f, vals[b as int]) == f[vpos@[b as int] as int]);
                assert(vals.take(b + 1).drop_last() =~= vals.take(b as int));
                assert(vals.take(b + 1).last() == vals[b as int]);
            }
            acc = match acc.append(&block) {
                Ok(s) => s,
                Err(e) => {
                    return Err(e);
                },
            };
            b = b + 1;
        }
        assert(vals.take(nv as int) =~= vals);
        out.push(var_col);
        out.push(acc);
        let ghost g = views(out@);
        proof {
            let m = melt_frame(f, ids, vals);
            assert(g =~= m);
            let sel = select_frame(f, ids);
            assert forall|x: int| 0 <= x < g.len() implies column_wf(#[trigger] g[x]) by {
                out@[x].lemma_wf();
            }
            assert forall|x: int, y: int|
                0 <= x < g.len() && 0 <= y < g.len() implies (#[trigger] g[x]).cells.len() == (
                #[trigger] g[y]).cells.len() by {
            }
            assert forall|x: int, y: int|
                0 <= x < g.len() && 0 <= y < g.len() && x != y implies (#[trigger] g[x]).name != (
                #[trigger] g[y]).name by {
                if x < ids.len() {
                    assert(g[x].name == sel[x].name);
                    assert(has_col(f, ids[x]));
                    assert(sel[x].name == ids[x]);
                }
                if y < ids.len() {
                    assert(g[y].name == sel[y].name);
                    assert(has_col(f, ids[y]));
                    assert(sel[y].name == ids[y]);
                }
                assert(variable_name() != value_name()) by {
                    assert(variable_name().len() != value_name().len());
                }
            }
        }
        Ok(DataFrame { columns: out })
    }
}

pub open spec fn aggs_view(aggs: Seq<(AggKind, &str)>) -> Seq<(AggKind, Seq<char>)> {
    aggs.map_values(|a: (AggKind, &str)| (a.0, a.1@))
}

pub open spec fn states_view(s: Seq<Option<i64>>) -> Seq<Option<int>> {
    s.map_values(
        |o: Option<i64>|
            match o {
                Some(v) => Some(v as int),
                None => None,
            },
    )
}

/// The states of one aggregate over the groups that `gids` assigns; `TypeError`
/// when a state leaves the range of `i64`.
fn aggregate(col: &Series, kind: AggKind, gids: &Vec<usize>, kf: Ghost<FrameModel>) -> (r: Result<
    Vec<Option<i64>>,
    EngineError,
>)
    requires
        col@.cells.len() == gids@.len(),
        forall|x: int| 0 <= x < gids@.len() ==> gids@[x] == group_id(kf@, x),
    ensures
        r is Ok <==> !agg_overflow(kind, col@.cells, kf@, gids@.len()),
        r is Ok ==> states_view(r->Ok_0@) == agg_states(kind, col@.cells, kf@, gids@.len()),
        r is Err ==> r->Err_0 is TypeError,
{
    let ghost cells = col@.cells;
    let mut accs: Vec<Option<i64>> = Vec::new();
    let mut r: usize = 0;
    while r < gids.len()
        invariant
            r <= gids@.len() == cells.len(),
            cells == col@.cells,
            forall|x: int| 0 <= x < gids@.len() ==> gids@[x] == group_id(kf@, x),
            states_view(accs@) == agg_states(kind, cells, kf@, r as nat),
            accs@.len() == group_firsts(kf@, r as nat).len(),
            !agg_overflow(kind, cells, kf@, r as nat),
        decreases gids@.len() - r,
    {
        proof {
            lemma_agg_states_len(kind, cells, kf@, (r + 1) as nat);
            lemma_agg_states_len(kind, cells, kf@, r as nat);
        }
        let g = gids[r];
        let cur: Option<i64> = if g < accs.len() {
            accs[g]
        } else {
            match kind {
                AggKind::Count => Some(0),
                _ => None,
            }
        };
        let ghost cur_int: Option<int> = match cur {
            Some(v) => Some(v as int),
            None => None,
        };
        assert(cur_int == if g < accs@.len() {
            agg_states(kind, cells, kf@, r as nat)[g as int]
        } else {
            agg_init(kind)
        });
        let cell = col.get(r);
        let next: Option<i128> = match &cell {
            None => match cur {
                Some(v) => Some(v as i128),
                None => None,
            },
            Some(d) => {
                let v: i128 = match d {
                    Scalar::Int(x) => *x as i128,
                    _ => 0,
                };
                let a: i128 = match cur {
                    Some(x) => x as i128,
                    None => 0,
                };
                match kind {
                    AggKind::Count => Some(a + 1),
                    AggKind::Sum => Some(a + v),
                    AggKind::Min => Some(
                        if cur.is_some() && a < v {
                            a
                        } else {
                            v
                        },
                    ),
                    AggKind::Max => Some(
                        if cur.is_some() && a > v {
                            a
                        } else {
                            v
                        },
                    ),
                }
            },
        };
        let ghost next_int: Option<int> = match next {
            Some(v) => Some(v as int),
            None => None,
        };
        assert(next_int == agg_step(kind, cur_int, cells[r as int]));
        let stored: Option<i64> = match next {
            None => None,
            Some(v) => {
                if v < i64::MIN as i128 || v > i64::MAX as i128 {
                    proof {
                        assert(agg_states(kind, cells, kf@, (r + 1) as nat)[g as int] == next_int);
                        assert(!fits_i64(next_int));
                        assert(agg_overflow(kind, cells, kf@, (r + 1) as nat));
                        lemma_overflow_mono(kind, cells, kf@, (r + 1) as nat, gids@.len());
                    }
                    return Err(EngineError::TypeError);
                }
                Some(v as i64)
            },
        };
        let ghost before = accs@;
        if g < accs.len() {
            accs.set(g, stored);
            assert(states_view(accs@) =~= states_view(before).update(g as int, next_int));
        } else {
            accs.push(stored);
            assert(states_view(accs@) =~= states_view(before).push(next_int));
        }
        assert(agg_states(kind, cells, kf@, (r + 1) as nat)[g as int] == next_int);
        r = r + 1;
    }
    Ok(accs)
}

/// No name is `variable` or `value`.
pub open spec fn no_reserved(names: Seq<Seq<char>>) -> bool {
    forall|k: int|
        0 <= k < names.len() ==> #[trigger] names[k] != variable_name() && names[k]
            != value_name()
}

impl DataFrame {
    /// Whether rows `a` and `b` hold equal values in every column (two nulls are equal).
    fn rows_equal(&self, a: usize, b: usize) -> (r: bool)
        requires
            a < height(self@),
            b < height(self@),
        ensures
            r == (row_key(self@, a as int) == row_key(self@, b as int)),
    {
        proof {
            use_type_invariant(self);
        }
        let mut c: usize = 0;
        while c < self.columns.len()
            invariant
                c <= self@.len() == self.columns@.len(),
                frame_wf(self@),
                a < height(self@),
                b < height(self@),
                forall|x: int| 0 <= x < c ==> (#[trigger] self@[x]).cells[a as int] == self@[x].cells[b as int],
            decreases self@.len() - c,
        {
            assert(self@[c as int].cells.len() == height(self@));
            if !opt_eq(&self.columns[c].get(a), &self.columns[c].get(b)) {
                assert(row_key(self@, a as int)[c as int] != row_key(self@, b as int)[c as int]);
                return false;
            }
            c = c + 1;
        }
        assert(row_key(self@, a as int) =~= row_key(self@, b as int));
        true
    }

    fn find_group(&self, firsts: &Vec<usize>, r: usize) -> (g: Option<usize>)
        requires
            rows_in_bounds(firsts@, height(self@)),
            r < height(self@),
        ensures
            match g {
                Some(x) => x as int == find_from(self@, firsts@, r as int, 0),
                None => find_from(self@, firsts@, r as int, 0) == -1,
            },
    {
        let mut j: usize = 0;
        while j < firsts.len()
            invariant
                j <= firsts@.len(),
                rows_in_bounds(firsts@, height(self@)),
                r < height(self@),
                find_from(self@, firsts@, r as int, 0) == find_from(self@, firsts@, r as int, j as int),
            decreases firsts@.len() - j,
        {
            if self.rows_equal(firsts[j], r) {
                return Some(j);
            }
            j = j + 1;
        }
        None
    }

    /// The first row of each group, in order of first appearance, and the
    /// group of each row.
    fn assign_groups(&self) -> (r: (Vec<usize>, Vec<usize>))
        ensures
            r.0@ == group_firsts(self@, height(self@)),
            r.1@.len() == height(self@),
            forall|x: int| 0 <= x < r.1@.len() ==> r.1@[x] == group_id(self@, x),
    {
        let n = self.height();
        let mut firsts: Vec<usize> = Vec::new();
        let mut gids: Vec<usize> = Vec::new();
        let mut r: usize = 0;
        while r < n
            invariant
                r <= n == height(self@),
                firsts@ == group_firsts(self@, r as nat),
                gids@.len() == r,
                forall|x: int| 0 <= x < r ==> gids@[x] == group_id(self@, x),
            decreases n - r,
        {
            proof {
                lemma_group_firsts(self@, r as nat);
                lemma_find_from(self@, firsts@, r as int, 0);
            }
            match self.find_group(&firsts, r) {
                Some(g) => {
                    gids.push(g);
                },
                None => {
                    gids.push(firsts.len());
                    firsts.push(r);
                },
            }
            r = r + 1;
        }
        (firsts, gids)
    }

    /// Group-by: rows with equal values in the `keys` columns (two nulls are
    /// equal) form a group; the groups come in order of first appearance. The
    /// output holds the key columns, then for each `(kind, column)` of `aggs`
    /// a column named `column_kind` with the aggregate of each group, nulls
    /// skipped. `KeyError` when a named column is absent; `TypeError` when a
    /// sum, minimum or maximum is asked of a column that is not `Int64`, or a
    /// result leaves the range of `i64`; `SchemaError` when there is no key, a
    /// key repeats, or two output columns share a name.
    pub fn group_by(&self, keys: &[&str], aggs: &[(AggKind, &str)]) -> (r: Result<
        DataFrame,
        EngineError,
    >)
        ensures
            r is Ok <==> all_present(self@, names_view(keys@)) && agg_cols_present(
                self@,
                aggs_view(aggs@),
            ) && keys@.len() > 0 && distinct(names_view(keys@)) && agg_types_ok(
                self@,
                aggs_view(aggs@),
            ) && !any_overflow(self@, names_view(keys@), aggs_view(aggs@)) && names_unique(
                group_frame(self@, names_view(keys@), aggs_view(aggs@)),
            ),
            r is Ok ==> r->Ok_0@ == group_frame(self@, names_view(keys@), aggs_view(aggs@))
                && frame_wf(r->Ok_0@),
            r is Err ==> (r->Err_0 is KeyError <==> !(all_present(self@, names_view(keys@))
                && agg_cols_present(self@, aggs_view(aggs@)))),
            r is Err ==> (r->Err_0 is TypeError <==> (all_present(self@, names_view(keys@))
                && agg_cols_present(self@, aggs_view(aggs@)) && keys@.len() > 0 && distinct(
                names_view(keys@),
            ) && (!agg_types_ok(self@, aggs_view(aggs@)) || any_overflow(
                self@,
                names_view(keys@),
                aggs_view(aggs@),
            )))),
            r is Err ==> (r->Err_0 is SchemaError <==> (all_present(self@, names_view(keys@))
                && agg_cols_present(self@, aggs_view(aggs@)) && !(keys@.len() > 0 && distinct(
                names_view(keys@),
            ) && (!agg_types_ok(self@, aggs_view(aggs@)) || any_overflow(
                self@,
                names_view(keys@),
                aggs_view(aggs@),
            ))))),
    {
        proof {
            use_type_invariant(self);
        }
        let ghost f = self@;
        let ghost ks = names_view(keys@);
        let ghost av = aggs_view(aggs@);
        let mut apos: Vec<usize> = Vec::new();
        let mut k: usize = 0;
        while k < aggs.len()
            invariant
                k <= aggs@.len() == av.len(),
                f == self@,
                frame_wf(f),
                av == aggs_view(aggs@),
                apos@.len() == k,
                forall|j: int| 0 <= j < k ==> has_col(f, (#[trigger] av[j]).1),
                forall|j: int|
                    0 <= j < k ==> #[trigger] apos@[j] == col_pos(f, av[j].1) && apos@[j] < f.len(),
            decreases aggs@.len() - k,
        {
            assert(av[k as int].1 == aggs@[k as int].1@);
            match self.column_index(aggs[k].1) {
                None => {
                    assert(!has_col(f, av[k as int].1));
                    return Err(EngineError::KeyError);
                },
                Some(i) => {
                    apos.push(i);
                },
            }
            k = k + 1;
        }
        assert(agg_cols_present(f, av));
        let kf = match self.select(keys) {
            Err(e) => {
                return Err(e);
            },
            Ok(d) => d,
        };
        if keys.len() == 0 {
            return Err(EngineError::SchemaError);
        }
        let mut k: usize = 0;
        while k < aggs.len()
            invariant
                k <= aggs@.len() == av.len() == apos@.len(),
                f == self@,
                av == aggs_view(aggs@),
                all_present(f, ks),
                agg_cols_present(f, av),
                ks.len() > 0 && distinct(ks),
                ks == names_view(keys@),
                forall|j: int|
                    0 <= j < aggs@.len() ==> #[trigger] apos@[j] == col_pos(f, av[j].1) && apos@[j] < f.len(),
                forall|j: int|
                    0 <= j < k && (#[trigger] av[j]).0 != AggKind::Count ==> col_of(f, av[j].1).dtype
                        == DataType::Int64,
            decreases aggs@.len() - k,
        {
            assert(av[k as int].0 == aggs@[k as int].0);
            assert(f[apos@[k as int] as int] == col_of(f, av[k as int].1));
            if aggs[k].0 != AggKind::Count && self.columns[apos[k]].dtype() != DataType::Int64 {
                assert(!agg_types_ok(f, av));
                return Err(EngineError::TypeError);
            }
            k = k + 1;
        }
        assert(agg_types_ok(f, av));
        let ghost kfm = kf@;
        proof {
            assert(has_col(f, ks[0]));
            assert(f[col_pos(f, ks[0])].cells.len() == height(f));
            assert(height(kfm) == height(f));
        }
        let (firsts, gids) = kf.assign_groups();
        proof {
            lemma_group_firsts(kfm, height(kfm));
        }
        let groups = kf.take(&firsts);
        let mut out: Vec<Series> = Vec::new();
        let mut c: usize = 0;
        while c < groups.columns.len()
            invariant
                c <= groups@.len() == groups.columns@.len(),
                out@.len() == c,
                forall|x: int| 0 <= x < c ==> (#[trigger] out@[x])@ == groups@[x],
            decreases groups@.len() - c,
        {
            out.push(groups.columns[c].duplicate());
            c = c + 1;
        }
        let ghost g = group_frame(f, ks, av);
        let mut k: usize = 0;
        while k < aggs.len()
            invariant
                k <= aggs@.len() == av.len() == apos@.len(),
                f == self@,
                frame_wf(f),
                av == aggs_view(aggs@),
                ks == names_view(keys@),
                all_present(f, ks),
                agg_cols_present(f, av),
                ks.len() > 0 && distinct(ks),
                agg_types_ok(f, av),
                kfm == select_frame(f, ks),
                height(kfm) == height(f),
                gids@.len() == height(f),
                forall|x: int| 0 <= x < gids@.len() ==> gids@[x] == group_id(kfm, x),
                forall|j: int|
                    0 <= j < aggs@.len() ==> #[trigger] apos@[j] == col_pos(f, av[j].1) && apos@[j] < f.len(),
                forall|j: int| 0 <= j < k ==> !agg_overflow(
                    (#[trigger] av[j]).0,
                    col_of(f, av[j].1).cells,
                    kfm,
                    height(f),
                ),
                out@.len() == groups@.len() + k,
                g == group_frame(f, ks, av),
                g.len() == groups@.len() + av.len(),
                forall|x: int| 0 <= x < groups@.len() + k ==> (#[trigger] out@[x])@ == g[x],
            decreases aggs@.len() - k,
        {
            let col = &self.columns[apos[k]];
            let kind = aggs[k].0;
            proof {
                assert(f[apos@[k as int] as int] == col_of(f, av[k as int].1));
                assert(f[apos@[k as int] as int].cells.len() == height(f));
            }
            let states = match aggregate(col, kind, &gids, Ghost(kfm)) {
                Ok(s) => s,
                Err(e) => {
                    assert(any_overflow(f, ks, av));
                    return Err(e);
                },
            };
            let mut items: Vec<Option<Scalar>> = Vec::new();
            let mut x: usize = 0;
            while x < states.len()
                invariant
                    x <= states@.len(),
                    items@.len() == x,
                    all_of_type(items@, DataType::Int64),
                    forall|y: int| 0 <= y < x ==> opt_view(#[trigger] items@[y]) == match states@[y] {
                        Some(v) => Some(Datum::Int(v)),
                        None => None,
                    },
                decreases states@.len() - x,
            {
                let item = match states[x] {
                    Some(v) => Some(Scalar::Int(v)),
                    None => None,
                };
                items.push(item);
                x = x + 1;
            }
            let name = String::from_str(aggs[k].1);
            let name = name.concat("_");
            let suffix = match kind {
                AggKind::Count => "count",
                AggKind::Sum => "sum",
                AggKind::Min => "min",
                AggKind::Max => "max",
            };
            let name = name.concat(suffix);
            proof {
                reveal_strlit("_");
                reveal_strlit("count");
                reveal_strlit("sum");
                reveal_strlit("min");
                reveal_strlit("max");
                assert(suffix@ =~= kind_name(kind));
                assert(name@ =~= agg_name(av[k as int].1, kind));
            }
            let series = Series::build(name.as_str(), DataType::Int64, &items);
            proof {
                let want = agg_column(f, kfm, kind, av[k as int].1);
                assert(series@.cells =~= want.cells);
                assert(g[groups@.len() + k] == want);
            }
            out.push(series);
            k = k + 1;
        }
        proof {
            assert(!any_overflow(f, ks, av));
            assert(views(out@) =~= g);
            assert forall|a: int, b: int|
                0 <= a < g.len() && 0 <= b < g.len() implies (#[trigger] g[a]).cells.len() == (
                #[trigger] g[b]).cells.len() by {
                lemma_agg_states_len(AggKind::Count, f[0].cells, kfm, height(f));
                if a >= groups@.len() {
                    let j = a - groups@.len();
                    lemma_agg_states_len(av[j].0, col_of(f, av[j].1).cells, kfm, height(f));
                }
                if b >= groups@.len() {
                    let j = b - groups@.len();
                    lemma_agg_states_len(av[j].0, col_of(f, av[j].1).cells, kfm, height(f));
                }
                assert(kfm.len() > 0);
                assert(groups@[0].cells.len() == group_firsts(kfm, height(kfm)).len());
            }
        }
        match DataFrame::new(out) {
            Ok(d) => Ok(d),
            Err(_) => Err(EngineError::SchemaError),
        }
    }
}

impl DataFrame {
    /// The order of rows `a` and `b` over every column, each reversed where
    /// `desc` says so.
    fn row_compare(&self, desc: &[bool], a: usize, b: usize) -> (r: i8)
        requires
            desc@.len() == self@.len(),
            self@.len() == 0 || (a < height(self@) && b < height(self@)),
        ensures
            r as int == row_cmp(self@, desc@, a as int, b as int, 0),
    {
        proof {
            use_type_invariant(self);
        }
        let mut k: usize = 0;
        while k < self.columns.len()
            invariant
                k <= self@.len() == self.columns@.len() == desc@.len(),
                frame_wf(self@),
                self@.len() == 0 || (a < height(self@) && b < height(self@)),
                row_cmp(self@, desc@, a as int, b as int, 0) == row_cmp(
                    self@,
                    desc@,
                    a as int,
                    b as int,
                    k as int,
                ),
            decreases self@.len() - k,
        {
            assert(self@[k as int].cells.len() == height(self@));
            let c = cell_compare(&self.columns[k].get(a), &self.columns[k].get(b), desc[k]);
            if c != 0 {
                return c;
            }
            k = k + 1;
        }
        0
    }

    fn insert_position(&self, desc: &[bool], list: &Vec<usize>, x: usize) -> (r: usize)
        requires
            desc@.len() == self@.len(),
            self@.len() == 0 || (x < height(self@) && rows_in_bounds(list@, height(self@))),
        ensures
            r as int == insert_pos(self@, desc@, list@, x as int, 0),
    {
        let mut j: usize = 0;
        while j < list.len()
            invariant
                j <= list@.len(),
                desc@.len() == self@.len(),
                self@.len() == 0 || (x < height(self@) && rows_in_bounds(list@, height(self@))),
                insert_pos(self@, desc@, list@, x as int, 0) == insert_pos(
                    self@,
                    desc@,
                    list@,
                    x as int,
                    j as int,
                ),
            decreases list@.len() - j,
        {
            if self.row_compare(desc, x, list[j]) < 0 {
                return j;
            }
            j = j + 1;
        }
        j
    }

    /// The rows in stable order of the `keys` columns, each descending where
    /// `descending` says so, nulls last in either direction; rows with equal
    /// keys keep their order. `ShapeError` when `descending` and `keys`
    /// differ in length, else `KeyError` when a key is absent, else
    /// `SchemaError` when a key repeats.
    pub fn sort(&self, keys: &[&str], descending: &[bool]) -> (r: Result<DataFrame, EngineError>)
        ensures
            r is Ok <==> descending@.len() == keys@.len() && all_present(self@, names_view(keys@))
                && distinct(names_view(keys@)),
            r is Ok ==> r->Ok_0@ == take_frame(
                self@,
                sort_rows(select_frame(self@, names_view(keys@)), descending@, height(self@)),
            ) && frame_wf(r->Ok_0@),
            r is Err ==> (r->Err_0 is ShapeError <==> descending@.len() != keys@.len()),
            r is Err ==> (r->Err_0 is KeyError <==> (descending@.len() == keys@.len() && !all_present(
                self@,
                names_view(keys@),
            ))),
            r is Err ==> (r->Err_0 is SchemaError <==> (descending@.len() == keys@.len()
                && all_present(self@, names_view(keys@)))),
    {
        proof {
            use_type_invariant(self);
        }
        if descending.len() != keys.len() {
            return Err(EngineError::ShapeError);
        }
        let kf = match self.select(keys) {
            Err(e) => {
                return Err(e);
            },
            Ok(d) => d,
        };
        let ghost f = self@;
        let ghost ks = names_view(keys@);
        let ghost kfm = kf@;
        proof {
            if ks.len() > 0 {
                assert(has_col(f, ks[0]));
                assert(f[col_pos(f, ks[0])].cells.len() == height(f));
                assert(height(kfm) == height(f));
            }
        }
        let n = self.height();
        let mut list: Vec<usize> = Vec::new();
        let mut i: usize = 0;
        while i < n
            invariant
                i <= n == height(f),
                kfm == kf@,
                kfm.len() == ks.len() == descending@.len(),
                kfm.len() > 0 ==> height(kfm) == height(f),
                list@ == sort_rows(kfm, descending@, i as nat),
            decreases n - i,
        {
            proof {
                lemma_sort_rows(kfm, descending@, i as nat);
                lemma_insert_pos(kfm, descending@, list@, i as int, 0);
            }
            let p = kf.insert_position(descending, &list, i);
            list.insert(p, i);
            i = i + 1;
        }
        proof {
            lemma_sort_rows(kfm, descending@, n as nat);
        }
        Ok(self.take(&list))
    }
}

impl DataFrame {
    /// Pivot: the rows grouped by the `index` column (groups in order of first
    /// appearance), with one `Int64` column per distinct text of the `columns`
    /// column (in order of first appearance), named by it, holding the `kind`
    /// aggregate of `values` over the rows of that group and that text; null
    /// where no row has that pair. `KeyError` when a column is absent;
    /// `TypeError` when `columns` is not `Utf8`, when a sum, minimum or maximum
    /// is asked of a `values` column that is not `Int64`, or when a result leaves
    /// the range of `i64`; `SchemaError` when `columns` holds a null or an
    /// output name repeats.
    pub fn pivot(&self, index: &str, columns: &str, values: &str, kind: AggKind) -> (r: Result<
        DataFrame,
        EngineError,
    >)
        ensures
            r is Ok <==> has_col(self@, index@) && has_col(self@, columns@) && has_col(
                self@,
                values@,
            ) && col_of(self@, columns@).dtype == DataType::Utf8 && (kind == AggKind::Count
                || col_of(self@, values@).dtype == DataType::Int64) && (forall|x: int|
                0 <= x < col_of(self@, columns@).cells.len() ==> (#[trigger] col_of(
                    self@,
                    columns@,
                ).cells[x]) is Some) && !pivot_overflow(self@, index@, columns@, values@, kind)
                && names_unique(pivot_frame(self@, index@, columns@, values@, kind)),
            r is Ok ==> r->Ok_0@ == pivot_frame(self@, index@, columns@, values@, kind) && frame_wf(
                r->Ok_0@,
            ),
            r is Err ==> (r->Err_0 is KeyError <==> !(has_col(self@, index@) && has_col(
                self@,
                columns@,
            ) && has_col(self@, values@))),
            r is Err ==> (r->Err_0 is TypeError <==> (has_col(self@, index@) && has_col(
                self@,
                columns@,
            ) && has_col(self@, values@) && (!(col_of(self@, columns@).dtype == DataType::Utf8
                && (kind == AggKind::Count || col_of(self@, values@).dtype == DataType::Int64)) || (
            (forall|x: int|
                0 <= x < col_of(self@, columns@).cells.len() ==> (#[trigger] col_of(
                    self@,
                    columns@,
                ).cells[x]) is Some) && pivot_overflow(self@, index@, columns@, values@, kind))))),
            r is Err ==> (r->Err_0 is KeyError || r->Err_0 is TypeError || r->Err_0 is SchemaError),
    {
        proof {
            use_type_invariant(self);
        }
        let ghost f = self@;
        let ii = match self.column_index(index) {
            Some(x) => x,
            None => {
                return Err(EngineError::KeyError);
            },
        };
        let ci = match self.column_index(columns) {
            Some(x) => x,
            None => {
                return Err(EngineError::KeyError);
            },
        };
        let vi = match self.column_index(values) {
            Some(x) => x,
            None => {
                return Err(EngineError::KeyError);
            },
        };
        let ccol = &self.columns[ci];
        let vcol = &self.columns[vi];
        if ccol.dtype() != DataType::Utf8 || (kind != AggKind::Count && vcol.dtype()
            != DataType::Int64) {
            return Err(EngineError::TypeError);
        }
        let n = self.height();
        proof {
            assert(f[ci as int].cells.len() == height(f));
            assert(f[vi as int].cells.len() == height(f));
            assert(f[ii as int].cells.len() == height(f));
        }
        let ghost cc = f[ci as int].cells;
        assert(col_of(f, columns@) == f[ci as int]);
        assert(col_of(f, values@) == f[vi as int]);
        let mut r: usize = 0;
        while r < n
            invariant
                r <= n == height(f) == cc.len(),
                cc == ccol@.cells,
                f == self@,
                has_col(f, index@) && has_col(f, columns@) && has_col(f, values@),
                cc == col_of(f, columns@).cells,
                col_of(f, columns@).dtype == DataType::Utf8,
                kind == AggKind::Count || col_of(f, values@).dtype == DataType::Int64,
                forall|x: int| 0 <= x < r ==> (#[trigger] cc[x]) is Some,
            decreases n - r,
        {
            if ccol.get(r).is_none() {
                assert(cc[r as int] is None);
                return Err(EngineError::SchemaError);
            }
            r = r + 1;
        }
        let ia = [index];
        let ca = [columns];
        proof {
            assert(names_view(ia@) =~= seq![index@]);
            assert(names_view(ca@) =~= seq![columns@]);
            assert(all_present(f, seq![index@]));
            assert(all_present(f, seq![columns@]));
        }
        let kf = match self.select(&ia) {
            Ok(d) => d,
            Err(e) => {
                return Err(e);
            },
        };
        let kc = match self.select(&ca) {
            Ok(d) => d,
            Err(e) => {
                return Err(e);
            },
        };
        let ghost kfm = kf@;
        proof {
            assert(kfm[0] == f[ii as int]);
            assert(kc@[0] == f[ci as int]);
            assert(height(kfm) == height(f));
            assert(height(kc@) == height(f));
        }
        let (firsts, gids) = kf.assign_groups();
        let (cfirsts, _cg) = kc.assign_groups();
        proof {
            lemma_group_firsts(kfm, height(f));
            lemma_group_firsts(kc@, height(f));
        }
        let groups = kf.take(&firsts);
        let mut out: Vec<Series> = Vec::new();
        let mut c: usize = 0;
        while c < groups.columns.len()
            invariant
                c <= groups@.len() == groups.columns@.len(),
                out@.len() == c,
                forall|x: int| 0 <= x < c ==> (#[trigger] out@[x])@ == groups@[x],
            decreases groups@.len() - c,
        {
            out.push(groups.columns[c].duplicate());
            c = c + 1;
        }
        let ghost g = pivot_frame(f, index@, columns@, values@, kind);
        let ghost sp = spread_cells(f, columns@);
        assert(sp.len() == cfirsts@.len());
        let mut j: usize = 0;
        while j < cfirsts.len()
            invariant
                j <= cfirsts@.len() == sp.len(),
                f == self@,
                has_col(f, index@) && has_col(f, columns@) && has_col(f, values@),
                frame_wf(f),
                n == height(f),
                ci < f.len() && vi < f.len(),
                cc == f[ci as int].cells,
                cc == col_of(f, columns@).cells,
                f[vi as int] == col_of(f, values@),
                kfm == select_frame(f, seq![index@]),
                height(kfm) == height(f),
                rows_in_bounds(cfirsts@, n as nat),
                sp == spread_cells(f, columns@),
                forall|x: int| 0 <= x < sp.len() ==> #[trigger] sp[x] == cc[cfirsts@[x] as int],
                forall|x: int| 0 <= x < n ==> (#[trigger] cc[x]) is Some,
                col_of(f, columns@).dtype == DataType::Utf8,
                kind == AggKind::Count || col_of(f, values@).dtype == DataType::Int64,
                gids@.len() == height(f),
                forall|x: int| 0 <= x < gids@.len() ==> gids@[x] == group_id(kfm, x),
                forall|x: int| 0 <= x < j ==> !agg_overflow(AggKind::Count, marks(cc, #[trigger] sp[x]), kfm, height(f))
                    && !agg_overflow(kind, marked(cc, sp[x], col_of(f, values@).cells), kfm, height(f)),
                g == pivot_frame(f, index@, columns@, values@, kind),
                g.len() == groups@.len() + sp.len(),
                out@.len() == groups@.len() + j,
                forall|x: int| 0 <= x < groups@.len() + j ==> (#[trigger] out@[x])@ == g[x],
            decreases cfirsts@.len() - j,
        {
            let v = self.columns[ci].get(cfirsts[j]);
            let mut mk: Vec<Option<Scalar>> = Vec::new();
            let mut mv: Vec<Option<Scalar>> = Vec::new();
            let vt = self.columns[vi].dtype();
            let mut r: usize = 0;
            while r < n
                invariant
                    r <= n == height(f),
                    ci < f.len() && vi < f.len(),
                    cc == f[ci as int].cells,
                    f == self@,
                    frame_wf(f),
                    vt == f[vi as int].dtype,
                    mk@.len() == r,
                    mv@.len() == r,
                    all_of_type(mk@, DataType::Boolean),
                    all_of_type(mv@, vt),
                    forall|x: int| 0 <= x < r ==> opt_view(#[trigger] mk@[x]) == marks(cc, opt_view(v))[x],
                    forall|x: int| 0 <= x < r ==> opt_view(#[trigger] mv@[x]) == marked(cc, opt_view(v), f[vi as int].cells)[x],
                decreases n - r,
            {
                assert(f[ci as int].cells.len() == height(f));
                assert(f[vi as int].cells.len() == height(f));
                let cell = self.columns[ci].get(r);
                if opt_eq(&cell, &v) {
                    mk.push(Some(Scalar::Bool(true)));
                    let val = self.columns[vi].get(r);
                    proof {
                        self.columns@[vi as int].lemma_wf();
                        if opt_view(val) is Some {
                            assert(f[vi as int].cells[r as int] is Some);
                        }
                    }
                    mv.push(val);
                } else {
                    mk.push(None);
                    mv.push(None);
                }
                r = r + 1;
            }
            let ms = Series::build(index, DataType::Boolean, &mk);
            let vs = Series::build(index, vt, &mv);
            proof {
                assert(ms@.cells =~= marks(cc, opt_view(v)));
                assert(vs@.cells =~= marked(cc, opt_view(v), f[vi as int].cells));
                assert(opt_view(v) == sp[j as int]);
            }
            let present = match aggregate(&ms, AggKind::Count, &gids, Ghost(kfm)) {
                Ok(s) => s,
                Err(e) => {
                    assert(pivot_overflow(f, index@, columns@, values@, kind)) by {
                        assert(agg_overflow(AggKind::Count, marks(cc, sp[j as int]), kfm, height(f)));
                    }
                    return Err(e);
                },
            };
            let st = match aggregate(&vs, kind, &gids, Ghost(kfm)) {
                Ok(s) => s,
                Err(e) => {
                    assert(pivot_overflow(f, index@, columns@, values@, kind)) by {
                        assert(agg_overflow(kind, marked(cc, sp[j as int], col_of(f, values@).cells), kfm, height(f)));
                    }
                    return Err(e);
                },
            };
            proof {
                lemma_agg_states_len(AggKind::Count, ms@.cells, kfm, height(f));
                lemma_agg_states_len(kind, vs@.cells, kfm, height(f));
            }
            let mut items: Vec<Option<Scalar>> = Vec::new();
            let mut x: usize = 0;
            while x < st.len()
                invariant
                    x <= st@.len() == present@.len(),
                    items@.len() == x,
                    all_of_type(items@, DataType::Int64),
                    forall|y: int| 0 <= y < x ==> opt_view(#[trigger] items@[y]) == (
                        if present@[y] is Some && present@[y]->0 > 0 && st@[y] is Some {
                            Some(Datum::Int(st@[y]->0))
                        } else {
                            None
                        }),
                decreases st@.len() - x,
            {
                let item = match (present[x], st[x]) {
                    (Some(p), Some(s)) => {
                        if p > 0 {
                            Some(Scalar::Int(s))
                        } else {
                            None
                        }
                    },
                    _ => None,
                };
                items.push(item);
                x = x + 1;
            }
            let name = match &v {
                Some(Scalar::Text(t)) => t.clone(),
                _ => String::new(),
            };
            let col = Series::build(name.as_str(), DataType::Int64, &items);
            proof {
                let want = pivot_cells(f, index@, columns@, values@, kind, sp[j as int]);
                assert(col@.cells =~= want);
                assert(col@.name == cell_text(sp[j as int]));
                assert(g[groups@.len() + j] == col@);
            }
            out.push(col);
            j = j + 1;
        }
        proof {
            assert(views(out@) =~= g);
            assert(!pivot_overflow(f, index@, columns@, values@, kind));
            lemma_agg_states_len(AggKind::Count, f[0].cells, kfm, height(f));
            assert forall|a: int, b: int|
                0 <= a < g.len() && 0 <= b < g.len() implies (#[trigger] g[a]).cells.len() == (
                #[trigger] g[b]).cells.len() by {
                assert(groups@[0].cells.len() == group_firsts(kfm, height(kfm)).len());
                if a >= groups@.len() {
                    let q = a - groups@.len();
                    lemma_agg_states_len(kind, marked(cc, sp[q], col_of(f, values@).cells), kfm, height(f));
                }
                if b >= groups@.len() {
                    let q = b - groups@.len();
                    lemma_agg_states_len(kind, marked(cc, sp[q], col_of(f, values@).cells), kfm, height(f));
                }
            }
        }
        match DataFrame::new(out) {
            Ok(d) => Ok(d),
            Err(_) => Err(EngineError::SchemaError),
        }
    }
}

} // verus!
