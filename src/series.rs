use vstd::prelude::*;
use crate::error::EngineError;
use crate::text::text_eq;
use crate::model::{
    cast_cell, cast_fails, cast_supported, cast_text_cells, cell_cmp, column_wf, compare_cells,
    datum_cmp, datum_type, decimal_text, fill_backward, fill_forward, fill_with, keys_match,
    lemma_mask_rows_bounded, mask_rows, null_count_of, rows_in_bounds, take_cells, take_column,
    text_of, zero_of, arith_cells, arith_overflows, arith_value, int_of, ArithOp, CmpOp, ColumnModel, DataType, Datum,
};

verus! {

/// One owned value of a column.
#[derive(Clone, Debug, PartialEq, Eq)]
pub enum Scalar {
    Int(i64),
    Bool(bool),
    Text(String),
}

impl View for Scalar {
    type V = Datum;

    open spec fn view(&self) -> Datum {
        match self {
            Scalar::Int(v) => Datum::Int(*v),
            Scalar::Bool(b) => Datum::Bool(*b),
            Scalar::Text(s) => Datum::Text(s@),
        }
    }
}

pub open spec fn opt_view(o: Option<Scalar>) -> Option<Datum> {
    match o {
        Some(s) => Some(s@),
        None => None,
    }
}

/// How `fill_null` replaces the nulls of a column.
#[derive(Clone, Debug, PartialEq, Eq)]
pub enum FillNullStrategy {
    /// 0, false or the empty text, by the column's type.
    Zero,
    /// The nearest present value above.
    Forward,
    /// The nearest present value below.
    Backward,
    /// A given value of the column's type.
    Literal(Scalar),
}

/// The dense value buffer of a column, one variant per type.
pub enum Buffer {
    Int(Vec<i64>),
    Bool(Vec<bool>),
    Text(Vec<String>),
}

pub open spec fn buffer_len(b: Buffer) -> nat {
    match b {
        Buffer::Int(v) => v@.len(),
        Buffer::Bool(v) => v@.len(),
        Buffer::Text(v) => v@.len(),
    }
}

pub open spec fn buffer_type(b: Buffer) -> DataType {
    match b {
        Buffer::Int(_) => DataType::Int64,
        Buffer::Bool(_) => DataType::Boolean,
        Buffer::Text(_) => DataType::Utf8,
    }
}

pub open spec fn buffer_datum(b: Buffer, i: int) -> Datum {
    match b {
        Buffer::Int(v) => Datum::Int(v@[i]),
        Buffer::Bool(v) => Datum::Bool(v@[i]),
        Buffer::Text(v) => Datum::Text(v@[i]@),
    }
}

/// A named, typed, nullable column: a value buffer and a validity bitmap of
/// the same length (`true` = present).
pub struct Series {
    name: String,
    values: Buffer,
    validity: Vec<bool>,
}

impl View for Series {
    type V = ColumnModel;

    closed spec fn view(&self) -> ColumnModel {
        ColumnModel {
            name: self.name@,
            dtype: buffer_type(self.values),
            cells: Seq::new(
                self.validity@.len(),
                |i: int|
                    if self.validity@[i] {
                        Some(buffer_datum(self.values, i))
                    } else {
                        None
                    },
            ),
        }
    }
}

proof fn lemma_product_fits(x: int, y: int)
    requires
        -0x8000_0000_0000_0000 <= x < 0x8000_0000_0000_0000,
        -0x8000_0000_0000_0000 <= y < 0x8000_0000_0000_0000,
    ensures
        -0x4000_0000_0000_0000_0000_0000_0000_0000 <= x * y <= 0x4000_0000_0000_0000_0000_0000_0000_0000,
{
    let b: int = 0x8000_0000_0000_0000;
    let ax: int = if x < 0 { -x } else { x };
    let ay: int = if y < 0 { -y } else { y };
    assert(ax * ay <= b * b) by (nonlinear_arith)
        requires
            0 <= ax <= b,
            0 <= ay <= b,
    ;
    assert(x * y == ax * ay || x * y == -(ax * ay)) by (nonlinear_arith)
        requires
            ax == (if x < 0 { -x } else { x }),
            ay == (if y < 0 { -y } else { y }),
    ;
    assert(b * b == 0x4000_0000_0000_0000_0000_0000_0000_0000) by (nonlinear_arith)
        requires
            b == 0x8000_0000_0000_0000,
    ;
}

/// The type of a value.
pub fn scalar_type(s: &Scalar) -> (r: DataType)
    ensures
        r == datum_type(s@),
{
    match s {
        Scalar::Int(_) => DataType::Int64,
        Scalar::Bool(_) => DataType::Boolean,
        Scalar::Text(_) => DataType::Utf8,
    }
}

/// Whether two values are equal (values of different types never are).
pub fn scalar_eq(a: &Scalar, b: &Scalar) -> (r: bool)
    ensures
        r == (a@ == b@),
{
    match (a, b) {
        (Scalar::Int(x), Scalar::Int(y)) => *x == *y,
        (Scalar::Bool(x), Scalar::Bool(y)) => *x == *y,
        (Scalar::Text(x), Scalar::Text(y)) => text_eq(x.as_str(), y.as_str()),
        _ => false,
    }
}

/// The order of two values of one type: -1, 0 or 1.
pub fn scalar_compare(a: &Scalar, b: &Scalar) -> (r: i8)
    ensures
        r as int == datum_cmp(a@, b@),
        -1 <= r <= 1,
{
    match (a, b) {
        (Scalar::Int(x), Scalar::Int(y)) => {
            if *x < *y {
                -1
            } else if *x > *y {
                1
            } else {
                0
            }
        },
        (Scalar::Bool(x), Scalar::Bool(y)) => {
            if !*x && *y {
                -1
            } else if *x && !*y {
                1
            } else {
                0
            }
        },
        (Scalar::Text(x), Scalar::Text(y)) => crate::text::text_compare(x.as_str(), y.as_str()),
        _ => 0,
    }
}

/// The order of two key cells, nulls last, reversed when `desc`.
pub fn cell_compare(a: &Option<Scalar>, b: &Option<Scalar>, desc: bool) -> (r: i8)
    ensures
        r as int == cell_cmp(opt_view(*a), opt_view(*b), desc),
{
    match (a, b) {
        (None, None) => 0,
        (None, Some(_)) => 1,
        (Some(_), None) => -1,
        (Some(x), Some(y)) => {
            let c = scalar_compare(x, y);
            if desc {
                -c
            } else {
                c
            }
        },
    }
}

/// Whether two cells are equal; two nulls are.
pub fn opt_eq(a: &Option<Scalar>, b: &Option<Scalar>) -> (r: bool)
    ensures
        r == (opt_view(*a) == opt_view(*b)),
{
    match (a, b) {
        (Some(x), Some(y)) => scalar_eq(x, y),
        (None, None) => true,
        _ => false,
    }
}

/// Whether two key cells join: both present and equal.
pub fn key_match(a: &Option<Scalar>, b: &Option<Scalar>) -> (r: bool)
    ensures
        r == keys_match(opt_view(*a), opt_view(*b)),
{
    match (a, b) {
        (Some(x), Some(y)) => scalar_eq(x, y),
        _ => false,
    }
}

fn fill_value(items: &Vec<Option<Scalar>>, v: &Scalar) -> (r: Vec<Option<Scalar>>)
    requires
        all_of_type(items@, datum_type(v@)),
    ensures
        cells_view(r@) == fill_with(cells_view(items@), v@),
        all_of_type(r@, datum_type(v@)),
{
    let mut r: Vec<Option<Scalar>> = Vec::new();
    let mut i: usize = 0;
    while i < items.len()
        invariant
            i <= items@.len(),
            all_of_type(items@, datum_type(v@)),
            r@.len() == i,
            all_of_type(r@, datum_type(v@)),
            forall|j: int|
                0 <= j < i ==> opt_view(#[trigger] r@[j]) == fill_with(cells_view(items@), v@)[j],
        decreases items@.len() - i,
    {
        let c = match &items[i] {
            Some(d) => Some(copy_scalar(d)),
            None => Some(copy_scalar(v)),
        };
        r.push(c);
        i = i + 1;
    }
    proof {
        assert(cells_view(r@) =~= fill_with(cells_view(items@), v@));
    }
    r
}

fn fill_down(items: &Vec<Option<Scalar>>) -> (r: Vec<Option<Scalar>>)
    ensures
        cells_view(r@) == fill_forward(cells_view(items@)),
        forall|t: DataType| all_of_type(items@, t) ==> all_of_type(r@, t),
{
    let mut r: Vec<Option<Scalar>> = Vec::new();
    let mut i: usize = 0;
    while i < items.len()
        invariant
            i <= items@.len(),
            r@.len() == i,
            cells_view(r@) == fill_forward(cells_view(items@).take(i as int)),
            forall|t: DataType| all_of_type(items@, t) ==> all_of_type(r@, t),
        decreases items@.len() - i,
    {
        proof {
            assert(cells_view(items@).take(i + 1).drop_last() =~= cells_view(items@).take(
                i as int,
            ));
        }
        let c = if items[i].is_none() && i > 0 {
            copy_opt(&r[i - 1])
        } else {
            copy_opt(&items[i])
        };
        let ghost before = r@;
        r.push(c);
        proof {
            assert(cells_view(r@) =~= cells_view(before).push(opt_view(c)));
            assert forall|t: DataType| all_of_type(items@, t) implies all_of_type(r@, t) by {
                if all_of_type(items@, t) {
                    assert forall|j: int|
                        0 <= j < r@.len() && (#[trigger] r@[j]) is Some implies datum_type(
                        r@[j]->0@,
                    ) == t by {
                        if j < i {
                            assert(before[j] == r@[j]);
                        } else if items@[i as int] is Some {
                            assert(opt_view(r@[j]) == opt_view(items@[i as int]));
                        } else {
                            assert(opt_view(r@[j]) == opt_view(before[i - 1]));
                        }
                    }
                }
            }
        }
        i = i + 1;
    }
    proof {
        assert(cells_view(items@).take(i as int) =~= cells_view(items@));
    }
    r
}

fn fill_up(items: &Vec<Option<Scalar>>) -> (r: Vec<Option<Scalar>>)
    ensures
        cells_view(r@) == fill_backward(cells_view(items@)),
        forall|t: DataType| all_of_type(items@, t) ==> all_of_type(r@, t),
{
    let n = items.len();
    let mut rev: Vec<Option<Scalar>> = Vec::new();
    let mut i: usize = n;
    while i > 0
        invariant
            i <= n == items@.len(),
            rev@.len() == n - i,
            forall|k: int|
                0 <= k < n - i ==> opt_view(#[trigger] rev@[k]) == fill_backward(
                    cells_view(items@).subrange(i as int, n as int),
                )[n - i - 1 - k],
            fill_backward(cells_view(items@).subrange(i as int, n as int)).len() == n - i,
            forall|t: DataType| all_of_type(items@, t) ==> all_of_type(rev@, t),
        decreases i,
    {
        let ghost tail = cells_view(items@).subrange(i as int, n as int);
        let ghost whole = cells_view(items@).subrange(i - 1, n as int);
        proof {
            assert(whole.drop_first() =~= tail);
            assert(whole.first() == opt_view(items@[i - 1]));
        }
        let c = if items[i - 1].is_none() && i < n {
            copy_opt(&rev[n - i - 1])
        } else {
            copy_opt(&items[i - 1])
        };
        let ghost before = rev@;
        rev.push(c);
        proof {
            assert forall|k: int|
                0 <= k < n - i + 1 implies opt_view(#[trigger] rev@[k]) == fill_backward(
                whole,
            )[n - (i - 1) - 1 - k] by {
                if k < n - i {
                    assert(rev@[k] == before[k]);
                }
            }
            assert forall|t: DataType| all_of_type(items@, t) implies all_of_type(rev@, t) by {
                if all_of_type(items@, t) {
                    assert forall|j: int|
                        0 <= j < rev@.len() && (#[trigger] rev@[j]) is Some implies datum_type(
                        rev@[j]->0@,
                    ) == t by {
                        if j < n - i {
                            assert(before[j] == rev@[j]);
                        } else if items@[i - 1] is Some {
                            assert(opt_view(rev@[j]) == opt_view(items@[i - 1]));
                        } else {
                            assert(opt_view(rev@[j]) == opt_view(before[n - i - 1]));
                        }
                    }
                }
            }
        }
        i = i - 1;
    }
    let mut r: Vec<Option<Scalar>> = Vec::new();
    let mut k: usize = 0;
    while k < n
        invariant
            k <= n == items@.len() == rev@.len(),
            r@.len() == k,
            forall|j: int| 0 <= j < k ==> opt_view(#[trigger] r@[j]) == opt_view(rev@[n - 1 - j]),
        decreases n - k,
    {
        r.push(copy_opt(&rev[n - 1 - k]));
        k = k + 1;
    }
    proof {
        assert(cells_view(items@).subrange(0, n as int) =~= cells_view(items@));
        assert(cells_view(r@) =~= fill_backward(cells_view(items@)));
        assert forall|t: DataType| all_of_type(items@, t) implies all_of_type(r@, t) by {
            if all_of_type(items@, t) {
                assert forall|j: int|
                    0 <= j < r@.len() && (#[trigger] r@[j]) is Some implies datum_type(
                    r@[j]->0@,
                ) == t by {
                    assert(opt_view(r@[j]) == opt_view(rev@[n - 1 - j]));
                }
            }
        }
    }
    r
}

fn gather_ints(v: &Vec<i64>, rows: &Vec<usize>) -> (out: Vec<i64>)
    requires
        rows_in_bounds(rows@, v@.len()),
    ensures
        out@.len() == rows@.len(),
        forall|k: int| 0 <= k < rows@.len() ==> out@[k] == v@[rows@[k] as int],
{
    let mut out: Vec<i64> = Vec::new();
    let mut k: usize = 0;
    while k < rows.len()
        invariant
            k <= rows@.len(),
            rows_in_bounds(rows@, v@.len()),
            out@.len() == k,
            forall|j: int| 0 <= j < k ==> out@[j] == v@[rows@[j] as int],
        decreases rows@.len() - k,
    {
        out.push(v[rows[k]]);
        k = k + 1;
    }
    out
}

fn gather_bools(v: &Vec<bool>, rows: &Vec<usize>) -> (out: Vec<bool>)
    requires
        rows_in_bounds(rows@, v@.len()),
    ensures
        out@.len() == rows@.len(),
        forall|k: int| 0 <= k < rows@.len() ==> out@[k] == v@[rows@[k] as int],
{
    let mut out: Vec<bool> = Vec::new();
    let mut k: usize = 0;
    while k < rows.len()
        invariant
            k <= rows@.len(),
            rows_in_bounds(rows@, v@.len()),
            out@.len() == k,
            forall|j: int| 0 <= j < k ==> out@[j] == v@[rows@[j] as int],
        decreases rows@.len() - k,
    {
        out.push(v[rows[k]]);
        k = k + 1;
    }
    out
}

fn gather_texts(v: &Vec<String>, rows: &Vec<usize>) -> (out: Vec<String>)
    requires
        rows_in_bounds(rows@, v@.len()),
    ensures
        out@.len() == rows@.len(),
        forall|k: int| 0 <= k < rows@.len() ==> out@[k]@ == v@[rows@[k] as int]@,
{
    let mut out: Vec<String> = Vec::new();
    let mut k: usize = 0;
    while k < rows.len()
        invariant
            k <= rows@.len(),
            rows_in_bounds(rows@, v@.len()),
            out@.len() == k,
            forall|j: int| 0 <= j < k ==> out@[j]@ == v@[rows@[j] as int]@,
        decreases rows@.len() - k,
    {
        out.push(v[rows[k]].clone());
        k = k + 1;
    }
    out
}

pub open spec fn cells_view(v: Seq<Option<Scalar>>) -> Seq<Option<Datum>> {
    v.map_values(|o: Option<Scalar>| opt_view(o))
}

pub open spec fn all_of_type(v: Seq<Option<Scalar>>, t: DataType) -> bool {
    forall|i: int| 0 <= i < v.len() && (#[trigger] v[i]) is Some ==> datum_type(v[i]->0@) == t
}

fn copy_scalar(s: &Scalar) -> (r: Scalar)
    ensures
        r@ == s@,
{
    match s {
        Scalar::Int(v) => Scalar::Int(*v),
        Scalar::Bool(b) => Scalar::Bool(*b),
        Scalar::Text(t) => Scalar::Text(t.clone()),
    }
}

fn copy_opt(o: &Option<Scalar>) -> (r: Option<Scalar>)
    ensures
        opt_view(r) == opt_view(*o),
{
    match o {
        Some(s) => Some(copy_scalar(s)),
        None => None,
    }
}

/// Relies on `ToString` for `i64` (its `Display` impl): the decimal digits,
/// with a leading '-' for a negative value.
#[verifier::external_body]
fn render_int(v: i64) -> (r: String)
    ensures
        r@ == decimal_text(v as int),
{
    v.to_string()
}

fn render_text(d: &Scalar) -> (r: String)
    ensures
        r@ == text_of(d@),
{
    match d {
        Scalar::Int(v) => render_int(*v),
        Scalar::Bool(b) => {
            if *b {
                let t = String::from_str("true");
                proof {
                    reveal_strlit("true");
                }
                assert(t@ =~= seq!['t', 'r', 'u', 'e']);
                t
            } else {
                let t = String::from_str("false");
                proof {
                    reveal_strlit("false");
                }
                assert(t@ =~= seq!['f', 'a', 'l', 's', 'e']);
                t
            }
        },
        Scalar::Text(t) => t.clone(),
    }
}

impl Series {
    #[verifier::type_invariant]
    closed spec fn inv(self) -> bool {
        buffer_len(self.values) == self.validity@.len()
    }

    /// Every present value has the column's type.
    pub proof fn lemma_wf(&self)
        ensures
            column_wf(self@),
    {
    }

    /// Builds a column of the given type from optional values; `TypeError`
    /// when a present value is of another type.
    pub fn from_options(name: &str, dtype: DataType, items: Vec<Option<Scalar>>) -> (r: Result<
        Series,
        EngineError,
    >)
        ensures
            r is Ok <==> (forall|i: int|
                0 <= i < items@.len() && (#[trigger] items@[i]) is Some ==> datum_type(
                    items@[i]->0@,
                ) == dtype),
            r is Ok ==> r->Ok_0@ == (ColumnModel {
                name: name@,
                dtype,
                cells: items@.map_values(|o: Option<Scalar>| opt_view(o)),
            }),
            r is Err ==> r->Err_0 is TypeError,
    {
        let mut i: usize = 0;
        while i < items.len()
            invariant
                i <= items@.len(),
                forall|j: int|
                    0 <= j < i && (#[trigger] items@[j]) is Some ==> datum_type(items@[j]->0@)
                        == dtype,
            decreases items@.len() - i,
        {
            match &items[i] {
                None => {},
                Some(v) => {
                    if scalar_type(v) != dtype {
                        return Err(EngineError::TypeError);
                    }
                },
            }
            i = i + 1;
        }
        Ok(Series::build(name, dtype, &items))
    }

    pub(crate) fn build(name: &str, dtype: DataType, items: &Vec<Option<Scalar>>) -> (r: Series)
        requires
            all_of_type(items@, dtype),
        ensures
            r@ == (ColumnModel { name: name@, dtype, cells: cells_view(items@) }),
    {
        let mut validity: Vec<bool> = Vec::new();
        let mut ints: Vec<i64> = Vec::new();
        let mut bools: Vec<bool> = Vec::new();
        let mut texts: Vec<String> = Vec::new();
        let mut i: usize = 0;
        while i < items.len()
            invariant
                i <= items@.len(),
                all_of_type(items@, dtype),
                validity@.len() == i,
                dtype == DataType::Int64 ==> ints@.len() == i,
                dtype == DataType::Boolean ==> bools@.len() == i,
                dtype == DataType::Utf8 ==> texts@.len() == i,
                forall|j: int|
                    0 <= j < i && (#[trigger] items@[j]) is Some ==> datum_type(items@[j]->0@)
                        == dtype,
                forall|j: int| 0 <= j < i ==> (#[trigger] validity@[j]) == items@[j] is Some,
                forall|j: int|
                    0 <= j < i && dtype == DataType::Int64 && (#[trigger] items@[j]) is Some
                        ==> items@[j]->0@ == Datum::Int(ints@[j]),
                forall|j: int|
                    0 <= j < i && dtype == DataType::Boolean && (#[trigger] items@[j]) is Some
                        ==> items@[j]->0@ == Datum::Bool(bools@[j]),
                forall|j: int|
                    0 <= j < i && dtype == DataType::Utf8 && (#[trigger] items@[j]) is Some
                        ==> items@[j]->0@ == Datum::Text(texts@[j]@),
            decreases items@.len() - i,
        {
            let present = items[i].is_some();
            let mut iv: i64 = 0;
            let mut bv: bool = false;
            let mut tv: String = String::new();
            match &items[i] {
                None => {},
                Some(Scalar::Int(v)) => {
                    iv = *v;
                },
                Some(Scalar::Bool(b)) => {
                    bv = *b;
                },
                Some(Scalar::Text(s)) => {
                    tv = s.clone();
                },
            }
            validity.push(present);
            match dtype {
                DataType::Int64 => ints.push(iv),
                DataType::Boolean => bools.push(bv),
                DataType::Utf8 => texts.push(tv),
            }
            i = i + 1;
        }
        let values = match dtype {
            DataType::Int64 => Buffer::Int(ints),
            DataType::Boolean => Buffer::Bool(bools),
            DataType::Utf8 => Buffer::Text(texts),
        };
        let s = Series { name: String::from_str(name), values, validity };
        assert(s@.cells =~= cells_view(items@));
        s
    }

    /// The values of the column, `None` where it is null.
    pub fn to_options(&self) -> (r: Vec<Option<Scalar>>)
        ensures
            cells_view(r@) == self@.cells,
            all_of_type(r@, self@.dtype),
    {
        let mut r: Vec<Option<Scalar>> = Vec::new();
        let mut i: usize = 0;
        while i < self.len()
            invariant
                i <= self@.cells.len(),
                r@.len() == i,
                forall|j: int| 0 <= j < i ==> opt_view(#[trigger] r@[j]) == self@.cells[j],
            decreases self@.cells.len() - i,
        {
            r.push(self.get(i));
            i = i + 1;
        }
        proof {
            self.lemma_wf();
            assert(cells_view(r@) =~= self@.cells);
            assert forall|j: int| 0 <= j < r@.len() && (#[trigger] r@[j]) is Some implies datum_type(
                r@[j]->0@,
            ) == self@.dtype by {
                assert(opt_view(r@[j]) == self@.cells[j]);
            }
        }
        r
    }

    /// The rows where `mask` holds a present `true`; `ShapeError` when the
    /// mask is not a `Boolean` column of the same length.
    pub fn filter(&self, mask: &Series) -> (r: Result<Series, EngineError>)
        ensures
            r is Ok <==> mask@.dtype == DataType::Boolean && mask@.cells.len()
                == self@.cells.len(),
            r is Ok ==> r->Ok_0@ == take_column(self@, mask_rows(mask@.cells)),
            r is Err ==> r->Err_0 is ShapeError,
    {
        if mask.dtype() != DataType::Boolean || mask.len() != self.len() {
            return Err(EngineError::ShapeError);
        }
        let rows = mask.true_rows();
        Ok(self.take(&rows))
    }

    /// The positions of the present `true` values, in increasing order.
    pub fn true_rows(&self) -> (r: Vec<usize>)
        ensures
            r@ == mask_rows(self@.cells),
            rows_in_bounds(r@, self@.cells.len()),
    {
        let mut r: Vec<usize> = Vec::new();
        let mut i: usize = 0;
        while i < self.len()
            invariant
                i <= self@.cells.len(),
                r@ == mask_rows(self@.cells.take(i as int)),
            decreases self@.cells.len() - i,
        {
            proof {
                assert(self@.cells.take(i + 1).drop_last() =~= self@.cells.take(i as int));
            }
            let c = self.get(i);
            let keep = match c {
                Some(Scalar::Bool(b)) => b,
                _ => false,
            };
            if keep {
                r.push(i);
            }
            i = i + 1;
        }
        proof {
            assert(self@.cells.take(i as int) =~= self@.cells);
            lemma_mask_rows_bounded(self@.cells);
        }
        r
    }

    /// The column with its nulls replaced by `strategy`; `TypeError` when a
    /// literal is not of the column's type.
    pub fn fill_null(&self, strategy: &FillNullStrategy) -> (r: Result<Series, EngineError>)
        ensures
            r is Err <==> (strategy is Literal && datum_type(strategy->Literal_0@) != self@.dtype),
            r is Err ==> r->Err_0 is TypeError,
            r is Ok ==> r->Ok_0@.name == self@.name && r->Ok_0@.dtype == self@.dtype,
            r is Ok ==> r->Ok_0@.cells == match strategy {
                FillNullStrategy::Zero => fill_with(self@.cells, zero_of(self@.dtype)),
                FillNullStrategy::Literal(v) => fill_with(self@.cells, v@),
                FillNullStrategy::Forward => fill_forward(self@.cells),
                FillNullStrategy::Backward => fill_backward(self@.cells),
            },
    {
        let items = self.to_options();
        let dtype = self.dtype();
        let out = match strategy {
            FillNullStrategy::Zero => {
                let z = match dtype {
                    DataType::Int64 => Scalar::Int(0),
                    DataType::Boolean => Scalar::Bool(false),
                    DataType::Utf8 => Scalar::Text(String::new()),
                };
                assert(z@ == zero_of(dtype));
                fill_value(&items, &z)
            },
            FillNullStrategy::Literal(v) => {
                if scalar_type(v) != dtype {
                    return Err(EngineError::TypeError);
                }
                fill_value(&items, v)
            },
            FillNullStrategy::Forward => fill_down(&items),
            FillNullStrategy::Backward => fill_up(&items),
        };
        Ok(Series::build(self.name.as_str(), dtype, &out))
    }

    /// This column's rows followed by those of `other`, under this name;
    /// `TypeError` when the types differ.
    pub fn append(&self, other: &Series) -> (r: Result<Series, EngineError>)
        ensures
            r is Ok <==> self@.dtype == other@.dtype,
            r is Ok ==> r->Ok_0@ == (ColumnModel {
                name: self@.name,
                dtype: self@.dtype,
                cells: self@.cells + other@.cells,
            }),
            r is Err ==> r->Err_0 is TypeError,
    {
        if self.dtype() != other.dtype() {
            return Err(EngineError::TypeError);
        }
        let mut items = self.to_options();
        let mut more = other.to_options();
        let ghost a = items@;
        let ghost b = more@;
        items.append(&mut more);
        proof {
            assert(items@ == a + b);
            assert(cells_view(items@) =~= cells_view(a) + cells_view(b));
        }
        Ok(Series::build(self.name.as_str(), self.dtype(), &items))
    }

    /// Each value compared with `lit` (the literal broadcast to every row), as
    /// a `Boolean` column; nulls stay null. `TypeError` when `lit` is not of
    /// the column's type.
    pub fn compare(&self, op: CmpOp, lit: &Scalar) -> (r: Result<Series, EngineError>)
        ensures
            r is Ok <==> datum_type(lit@) == self@.dtype,
            r is Ok ==> r->Ok_0@ == (ColumnModel {
                name: self@.name,
                dtype: DataType::Boolean,
                cells: compare_cells(self@.cells, op, lit@),
            }),
            r is Err ==> r->Err_0 is TypeError,
    {
        if scalar_type(lit) != self.dtype() {
            return Err(EngineError::TypeError);
        }
        let items = self.to_options();
        let mut out: Vec<Option<Scalar>> = Vec::new();
        let mut i: usize = 0;
        while i < items.len()
            invariant
                i <= items@.len(),
                out@.len() == i,
                all_of_type(out@, DataType::Boolean),
                forall|j: int|
                    0 <= j < i ==> opt_view(#[trigger] out@[j]) == compare_cells(
                        cells_view(items@),
                        op,
                        lit@,
                    )[j],
            decreases items@.len() - i,
        {
            let c = match &items[i] {
                None => None,
                Some(d) => {
                    let o = scalar_compare(d, lit);
                    let holds = match op {
                        CmpOp::Eq => o == 0,
                        CmpOp::Ne => o != 0,
                        CmpOp::Lt => o < 0,
                        CmpOp::Le => o <= 0,
                        CmpOp::Gt => o > 0,
                        CmpOp::Ge => o >= 0,
                    };
                    Some(Scalar::Bool(holds))
                },
            };
            out.push(c);
            i = i + 1;
        }
        proof {
            assert(cells_view(out@) =~= compare_cells(self@.cells, op, lit@));
        }
        Ok(Series::build(self.name.as_str(), DataType::Boolean, &out))
    }

    /// The column converted to `target`: to its own type, a copy; to `Utf8`,
    /// the text of each value; from `Utf8`, each text parsed as the target
    /// (a field that does not parse becomes null, or, when `strict`, makes the
    /// cast fail). Other conversions, and a failing strict cast, are
    /// `TypeError`.
    pub fn cast(&self, target: DataType, strict: bool) -> (r: Result<Series, EngineError>)
        ensures
            r is Ok <==> cast_supported(self@.dtype, target) && !(strict && cast_fails(
                self@.dtype,
                target,
                self@.cells,
            )),
            r is Ok ==> r->Ok_0@ == (ColumnModel {
                name: self@.name,
                dtype: target,
                cells: self@.cells.map_values(|c: Option<Datum>| cast_cell(self@.dtype, target, c)),
            }),
            r is Err ==> r->Err_0 is TypeError,
    {
        let from = self.dtype();
        if from == target {
            let d = self.duplicate();
            assert(d@.cells =~= self@.cells.map_values(
                |c: Option<Datum>| cast_cell(self@.dtype, target, c),
            ));
            return Ok(d);
        }
        if target == DataType::Utf8 {
            let t = self.cast_text();
            assert(t@.cells =~= self@.cells.map_values(
                |c: Option<Datum>| cast_cell(self@.dtype, target, c),
            ));
            return Ok(t);
        }
        if from != DataType::Utf8 {
            return Err(EngineError::TypeError);
        }
        let items = self.to_options();
        let mut out: Vec<Option<Scalar>> = Vec::new();
        let mut i: usize = 0;
        while i < items.len()
            invariant
                i <= items@.len(),
                cells_view(items@) == self@.cells,
                from == self@.dtype,
                from == DataType::Utf8,
                target != DataType::Utf8,
                all_of_type(items@, DataType::Utf8),
                out@.len() == i,
                all_of_type(out@, target),
                forall|j: int|
                    0 <= j < i ==> opt_view(#[trigger] out@[j]) == cast_cell(
                        from,
                        target,
                        self@.cells[j],
                    ),
                strict ==> forall|j: int|
                    0 <= j < i ==> !(self@.cells[j] is Some && (#[trigger] cast_cell(
                        from,
                        target,
                        self@.cells[j],
                    )) is None),
            decreases items@.len() - i,
        {
            assert(opt_view(items@[i as int]) == self@.cells[i as int]);
            let c = match &items[i] {
                Some(Scalar::Text(t)) => {
                    let p = crate::csv::parse_field(target, t.as_str());
                    assert(self@.cells[i as int] == Some(Datum::Text(t@)));
                    if strict && p.is_none() {
                        assert(cast_cell(from, target, self@.cells[i as int]) is None);
                        assert(cast_fails(from, target, self@.cells));
                        return Err(EngineError::TypeError);
                    }
                    p
                },
                _ => None,
            };
            out.push(c);
            i = i + 1;
        }
        proof {
            assert(cells_view(out@) =~= self@.cells.map_values(
                |c: Option<Datum>| cast_cell(self@.dtype, target, c),
            ));
        }
        Ok(Series::build(self.name.as_str(), target, &out))
    }

    /// Row-by-row arithmetic with `other`, under this column's name; a null on
    /// either side gives null. `ShapeError` when the lengths differ, else
    /// `TypeError` when a column is not `Int64` or a result leaves the range
    /// of `i64`.
    pub fn arith(&self, op: ArithOp, other: &Series) -> (r: Result<Series, EngineError>)
        ensures
            r is Ok <==> self@.cells.len() == other@.cells.len() && self@.dtype == DataType::Int64
                && other@.dtype == DataType::Int64 && !arith_overflows(op, self@.cells, other@.cells),
            r is Ok ==> r->Ok_0@ == (ColumnModel {
                name: self@.name,
                dtype: DataType::Int64,
                cells: arith_cells(op, self@.cells, other@.cells),
            }),
            r is Err ==> (r->Err_0 is ShapeError <==> self@.cells.len() != other@.cells.len()),
            r is Err ==> (r->Err_0 is TypeError <==> self@.cells.len() == other@.cells.len()),
    {
        if self.len() != other.len() {
            return Err(EngineError::ShapeError);
        }
        if self.dtype() != DataType::Int64 || other.dtype() != DataType::Int64 {
            return Err(EngineError::TypeError);
        }
        proof {
            self.lemma_wf();
            other.lemma_wf();
        }
        let n = self.len();
        let mut out: Vec<Option<Scalar>> = Vec::new();
        let mut i: usize = 0;
        while i < n
            invariant
                i <= n == self@.cells.len() == other@.cells.len(),
                self@.dtype == DataType::Int64,
                other@.dtype == DataType::Int64,
                column_wf(self@),
                column_wf(other@),
                out@.len() == i,
                all_of_type(out@, DataType::Int64),
                forall|j: int| 0 <= j < i ==> opt_view(#[trigger] out@[j]) == arith_cells(
                    op,
                    self@.cells,
                    other@.cells,
                )[j],
                forall|j: int|
                    0 <= j < i ==> !((#[trigger] self@.cells[j]) is Some && other@.cells[j] is Some
                        && !(i64::MIN <= arith_value(
                        op,
                        int_of(self@.cells[j]->0),
                        int_of(other@.cells[j]->0),
                    ) <= i64::MAX)),
            decreases n - i,
        {
            let a = self.get(i);
            let b = other.get(i);
            let c = match (a, b) {
                (Some(Scalar::Int(x)), Some(Scalar::Int(y))) => {
                    let w: i128 = match op {
                        ArithOp::Add => x as i128 + y as i128,
                        ArithOp::Sub => x as i128 - y as i128,
                        ArithOp::Mul => {
                            let xx = x as i128;
                            let yy = y as i128;
                            proof {
                                lemma_product_fits(xx as int, yy as int);
                            }
                            xx * yy
                        },
                    };
                    if w < i64::MIN as i128 || w > i64::MAX as i128 {
                        assert(arith_overflows(op, self@.cells, other@.cells)) by {
                            assert(self@.cells[i as int] is Some);
                        }
                        return Err(EngineError::TypeError);
                    }
                    Some(Scalar::Int(w as i64))
                },
                _ => {
                    proof {
                        if self@.cells[i as int] is Some && other@.cells[i as int] is Some {
                            assert(datum_type(self@.cells[i as int]->0) == DataType::Int64);
                            assert(datum_type(other@.cells[i as int]->0) == DataType::Int64);
                        }
                    }
                    None
                },
            };
            out.push(c);
            i = i + 1;
        }
        proof {
            assert(cells_view(out@) =~= arith_cells(op, self@.cells, other@.cells));
        }
        Ok(Series::build(self.name.as_str(), DataType::Int64, &out))
    }

    /// The column rendered as text: numbers in decimal, `true` / `false`,
    /// text unchanged; nulls stay null.
    pub fn cast_text(&self) -> (r: Series)
        ensures
            r@ == (ColumnModel {
                name: self@.name,
                dtype: DataType::Utf8,
                cells: cast_text_cells(self@.cells),
            }),
    {
        let items = self.to_options();
        let mut out: Vec<Option<Scalar>> = Vec::new();
        let mut i: usize = 0;
        while i < items.len()
            invariant
                i <= items@.len(),
                out@.len() == i,
                all_of_type(out@, DataType::Utf8),
                forall|j: int|
                    0 <= j < i ==> opt_view(#[trigger] out@[j]) == cast_text_cells(
                        cells_view(items@),
                    )[j],
            decreases items@.len() - i,
        {
            let c = match &items[i] {
                Some(d) => Some(Scalar::Text(render_text(d))),
                None => None,
            };
            out.push(c);
            i = i + 1;
        }
        proof {
            assert(cells_view(out@) =~= cast_text_cells(self@.cells));
        }
        Series::build(self.name.as_str(), DataType::Utf8, &out)
    }

    /// The column's name.
    pub fn name(&self) -> (r: &String)
        ensures
            r@ == self@.name,
    {
        &self.name
    }

    /// The column's type.
    pub fn dtype(&self) -> (r: DataType)
        ensures
            r == self@.dtype,
    {
        match &self.values {
            Buffer::Int(_) => DataType::Int64,
            Buffer::Bool(_) => DataType::Boolean,
            Buffer::Text(_) => DataType::Utf8,
        }
    }

    /// The number of rows.
    pub fn len(&self) -> (r: usize)
        ensures
            r == self@.cells.len(),
    {
        self.validity.len()
    }

    /// The value at row `i`, `None` where it is null.
    pub fn get(&self, i: usize) -> (r: Option<Scalar>)
        requires
            i < self@.cells.len(),
        ensures
            opt_view(r) == self@.cells[i as int],
    {
        proof {
            use_type_invariant(self);
        }
        if !self.validity[i] {
            return None;
        }
        match &self.values {
            Buffer::Int(v) => Some(Scalar::Int(v[i])),
            Buffer::Bool(v) => Some(Scalar::Bool(v[i])),
            Buffer::Text(v) => Some(Scalar::Text(v[i].clone())),
        }
    }

    /// The same column under another name.
    pub fn rename(&self, name: &str) -> (r: Series)
        ensures
            r@ == (ColumnModel { name: name@, ..self@ }),
    {
        let r = self.take(&self.all_rows());
        proof {
            use_type_invariant(&r);
            assert(r@.cells =~= self@.cells);
        }
        Series { name: String::from_str(name), values: r.values, validity: r.validity }
    }

    /// A copy of the column.
    pub fn duplicate(&self) -> (r: Series)
        ensures
            r@ == self@,
    {
        let r = self.take(&self.all_rows());
        assert(r@.cells =~= self@.cells);
        r
    }

    fn all_rows(&self) -> (r: Vec<usize>)
        ensures
            r@.len() == self@.cells.len(),
            forall|k: int| 0 <= k < r@.len() ==> r@[k] == k,
    {
        let n = self.len();
        let mut r: Vec<usize> = Vec::new();
        let mut k: usize = 0;
        while k < n
            invariant
                k <= n,
                r@.len() == k,
                forall|j: int| 0 <= j < k ==> r@[j] == j,
            decreases n - k,
        {
            r.push(k);
            k = k + 1;
        }
        r
    }

    /// The number of null rows.
    pub fn null_count(&self) -> (r: usize)
        ensures
            r == null_count_of(self@.cells),
    {
        let mut count: usize = 0;
        let mut i: usize = 0;
        while i < self.validity.len()
            invariant
                i <= self@.cells.len(),
                count == null_count_of(self@.cells.take(i as int)),
                count <= i,
            decreases self@.cells.len() - i,
        {
            proof {
                assert(self@.cells.take(i + 1).drop_last() =~= self@.cells.take(i as int));
            }
            if !self.validity[i] {
                count = count + 1;
            }
            i = i + 1;
        }
        proof {
            assert(self@.cells.take(i as int) =~= self@.cells);
        }
        count
    }

    /// The rows at the given positions, in the given order (positions may repeat).
    pub fn take(&self, rows: &Vec<usize>) -> (r: Series)
        requires
            rows_in_bounds(rows@, self@.cells.len()),
        ensures
            r@ == take_column(self@, rows@),
    {
        proof {
            use_type_invariant(self);
        }
        let validity = gather_bools(&self.validity, rows);
        let values = match &self.values {
            Buffer::Int(v) => Buffer::Int(gather_ints(v, rows)),
            Buffer::Bool(v) => Buffer::Bool(gather_bools(v, rows)),
            Buffer::Text(v) => Buffer::Text(gather_texts(v, rows)),
        };
        let r = Series { name: self.name.clone(), values, validity };
        proof {
            assert(r@.cells =~= take_cells(self@.cells, rows@));
        }
        r
    }
}

} // verus!
