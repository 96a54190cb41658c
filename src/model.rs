use vstd::prelude::*;

verus! {

/// The type of a column's values.
#[derive(Clone, Copy, Debug, PartialEq, Eq, Structural)]
pub enum DataType {
    Int64,
    Boolean,
    Utf8,
}

/// One present value, as the contracts see it.
pub enum Datum {
    Int(i64),
    Bool(bool),
    Text(Seq<char>),
}

/// What a column is: a name, a type and one optional value per row
/// (`None` where the validity bit is clear).
pub struct ColumnModel {
    pub name: Seq<char>,
    pub dtype: DataType,
    pub cells: Seq<Option<Datum>>,
}

pub open spec fn datum_type(d: Datum) -> DataType {
    match d {
        Datum::Int(_) => DataType::Int64,
        Datum::Bool(_) => DataType::Boolean,
        Datum::Text(_) => DataType::Utf8,
    }
}

/// Every present value has the column's type.
pub open spec fn column_wf(c: ColumnModel) -> bool {
    forall|i: int| 0 <= i < c.cells.len() && (#[trigger] c.cells[i]) is Some ==> datum_type(
        c.cells[i]->0,
    ) == c.dtype
}

pub open spec fn null_count_of(cells: Seq<Option<Datum>>) -> nat
    decreases cells.len(),
{
    if cells.len() == 0 {
        0
    } else {
        null_count_of(cells.drop_last()) + if cells.last() is None {
            1nat
        } else {
            0nat
        }
    }
}

/// The cells at the given row positions, in the given order.
pub open spec fn take_cells(cells: Seq<Option<Datum>>, rows: Seq<usize>) -> Seq<Option<Datum>> {
    rows.map_values(|r: usize| cells[r as int])
}

pub open spec fn take_column(c: ColumnModel, rows: Seq<usize>) -> ColumnModel {
    ColumnModel { name: c.name, dtype: c.dtype, cells: take_cells(c.cells, rows) }
}

pub open spec fn rows_in_bounds(rows: Seq<usize>, n: nat) -> bool {
    forall|k: int| 0 <= k < rows.len() ==> (#[trigger] rows[k]) < n
}

/// The rows whose mask cell is a present `true`, in increasing order.
pub open spec fn mask_rows(mask: Seq<Option<Datum>>) -> Seq<usize>
    decreases mask.len(),
{
    if mask.len() == 0 {
        Seq::empty()
    } else {
        let prev = mask_rows(mask.drop_last());
        if mask.last() == Some(Datum::Bool(true)) {
            prev.push((mask.len() - 1) as usize)
        } else {
            prev
        }
    }
}

/// The value that a null becomes under the zero fill: 0, false or the empty text.
pub open spec fn zero_of(t: DataType) -> Datum {
    match t {
        DataType::Int64 => Datum::Int(0),
        DataType::Boolean => Datum::Bool(false),
        DataType::Utf8 => Datum::Text(Seq::empty()),
    }
}

pub open spec fn fill_with(cells: Seq<Option<Datum>>, d: Datum) -> Seq<Option<Datum>> {
    cells.map_values(|c: Option<Datum>| if c is None { Some(d) } else { c })
}

/// Forward fill: each null takes the nearest present value above it, if any.
pub open spec fn fill_forward(cells: Seq<Option<Datum>>) -> Seq<Option<Datum>>
    decreases cells.len(),
{
    if cells.len() == 0 {
        Seq::empty()
    } else {
        let prev = fill_forward(cells.drop_last());
        if cells.last() is None && prev.len() > 0 {
            prev.push(prev.last())
        } else {
            prev.push(cells.last())
        }
    }
}

/// Backward fill: each null takes the nearest present value below it, if any.
pub open spec fn fill_backward(cells: Seq<Option<Datum>>) -> Seq<Option<Datum>>
    decreases cells.len(),
{
    if cells.len() == 0 {
        Seq::empty()
    } else {
        let rest = fill_backward(cells.drop_first());
        if cells.first() is None && rest.len() > 0 {
            seq![rest.first()] + rest
        } else {
            seq![cells.first()] + rest
        }
    }
}

} // verus!

verus! {

pub open spec fn digit_char(d: nat) -> char {
    seq!['0', '1', '2', '3', '4', '5', '6', '7', '8', '9'][(d % 10) as int]
}

pub open spec fn digits_of(n: nat) -> Seq<char>
    decreases n,
{
    if n < 10 {
        seq![digit_char(n)]
    } else {
        digits_of(n / 10).push(digit_char(n % 10))
    }
}

/// The decimal text of an integer, with a leading '-' when it is negative.
pub open spec fn decimal_text(v: int) -> Seq<char> {
    if v < 0 {
        seq!['-'] + digits_of((-v) as nat)
    } else {
        digits_of(v as nat)
    }
}

/// The text that a value renders to when a column is cast to `Utf8`.
pub open spec fn text_of(d: Datum) -> Seq<char> {
    match d {
        Datum::Int(v) => decimal_text(v as int),
        Datum::Bool(b) => if b {
            seq!['t', 'r', 'u', 'e']
        } else {
            seq!['f', 'a', 'l', 's', 'e']
        },
        Datum::Text(s) => s,
    }
}

pub open spec fn cast_text_cells(cells: Seq<Option<Datum>>) -> Seq<Option<Datum>> {
    cells.map_values(
        |c: Option<Datum>|
            match c {
                Some(d) => Some(Datum::Text(text_of(d))),
                None => None,
            },
    )
}

pub proof fn lemma_mask_rows_bounded(mask: Seq<Option<Datum>>)
    ensures
        rows_in_bounds(mask_rows(mask), mask.len()),
        mask_rows(mask).len() <= mask.len(),
    decreases mask.len(),
{
    if mask.len() > 0 {
        lemma_mask_rows_bounded(mask.drop_last());
    }
}

} // verus!

verus! {

/// A frame as the contracts see it: its columns in order.
pub type FrameModel = Seq<ColumnModel>;

pub open spec fn same_height(f: FrameModel) -> bool {
    forall|i: int, j: int|
        0 <= i < f.len() && 0 <= j < f.len() ==> (#[trigger] f[i]).cells.len() == (#[trigger] f[
            j]).cells.len()
}

pub open spec fn names_unique(f: FrameModel) -> bool {
    forall|i: int, j: int|
        0 <= i < f.len() && 0 <= j < f.len() && i != j ==> (#[trigger] f[i]).name != (#[trigger] f[
            j]).name
}

/// The frame invariant: equal column lengths, unique names, well-typed columns.
pub open spec fn frame_wf(f: FrameModel) -> bool {
    &&& same_height(f)
    &&& names_unique(f)
    &&& forall|i: int| 0 <= i < f.len() ==> column_wf(#[trigger] f[i])
}

/// The number of rows (0 for a frame without columns).
pub open spec fn height(f: FrameModel) -> nat {
    if f.len() == 0 {
        0
    } else {
        f[0].cells.len()
    }
}

pub open spec fn has_col(f: FrameModel, name: Seq<char>) -> bool {
    exists|i: int| 0 <= i < f.len() && (#[trigger] f[i]).name == name
}

pub open spec fn col_pos(f: FrameModel, name: Seq<char>) -> int {
    choose|i: int| 0 <= i < f.len() && (#[trigger] f[i]).name == name
}

/// The column of the given name.
pub open spec fn col_of(f: FrameModel, name: Seq<char>) -> ColumnModel {
    f[col_pos(f, name)]
}

pub open spec fn take_frame(f: FrameModel, rows: Seq<usize>) -> FrameModel {
    f.map_values(|c: ColumnModel| take_column(c, rows))
}

pub open spec fn all_present(f: FrameModel, names: Seq<Seq<char>>) -> bool {
    forall|k: int| 0 <= k < names.len() ==> has_col(f, #[trigger] names[k])
}

pub open spec fn distinct(names: Seq<Seq<char>>) -> bool {
    forall|i: int, j: int|
        0 <= i < names.len() && 0 <= j < names.len() && i != j ==> names[i] != names[j]
}

/// The named columns, in the order named.
pub open spec fn select_frame(f: FrameModel, names: Seq<Seq<char>>) -> FrameModel {
    names.map_values(|n: Seq<char>| col_of(f, n))
}

/// The frame with `c` in place of the column of its name, or `c` appended.
pub open spec fn with_col(f: FrameModel, c: ColumnModel) -> FrameModel {
    if has_col(f, c.name) {
        f.update(col_pos(f, c.name), c)
    } else {
        f.push(c)
    }
}

/// Whether every given column is present at row `r`.
pub open spec fn row_complete(cols: FrameModel, r: int) -> bool {
    forall|c: int| 0 <= c < cols.len() ==> (#[trigger] cols[c]).cells[r] is Some
}

/// The rows, among the first `n`, at which every given column is present.
pub open spec fn complete_rows(cols: FrameModel, n: nat) -> Seq<usize>
    decreases n,
{
    if n == 0 {
        Seq::empty()
    } else {
        let prev = complete_rows(cols, (n - 1) as nat);
        if row_complete(cols, n - 1) {
            prev.push((n - 1) as usize)
        } else {
            prev
        }
    }
}

pub proof fn lemma_complete_rows_bounded(cols: FrameModel, n: nat)
    ensures
        rows_in_bounds(complete_rows(cols, n), n),
        complete_rows(cols, n).len() <= n,
    decreases n,
{
    if n > 0 {
        lemma_complete_rows_bounded(cols, (n - 1) as nat);
    }
}

} // verus!

verus! {

pub proof fn lemma_col_pos(f: FrameModel, i: int)
    requires
        names_unique(f),
        0 <= i < f.len(),
    ensures
        has_col(f, f[i].name),
        col_pos(f, f[i].name) == i,
        col_of(f, f[i].name) == f[i],
{
    assert(f[i].name == f[i].name);
    let j = col_pos(f, f[i].name);
    assert(0 <= j < f.len() && f[j].name == f[i].name);
}

} // verus!

verus! {

/// Two key cells join when both are present and equal; a null joins nothing.
pub open spec fn keys_match(a: Option<Datum>, b: Option<Datum>) -> bool {
    a is Some && a == b
}

/// The rows among the first `m` of `rk` that join the key `k`, in order.
pub open spec fn matches_upto(k: Option<Datum>, rk: Seq<Option<Datum>>, m: nat) -> Seq<usize>
    decreases m,
{
    if m == 0 {
        Seq::empty()
    } else {
        let prev = matches_upto(k, rk, (m - 1) as nat);
        if keys_match(k, rk[m - 1]) {
            prev.push((m - 1) as usize)
        } else {
            prev
        }
    }
}

/// The joined row pairs of the first `n` left rows: left row positions and
/// right row positions, left rows in order and, for each, its matches in order.
pub open spec fn join_rows(lk: Seq<Option<Datum>>, rk: Seq<Option<Datum>>, n: nat) -> (
    Seq<usize>,
    Seq<usize>,
)
    decreases n,
{
    if n == 0 {
        (Seq::empty(), Seq::empty())
    } else {
        let prev = join_rows(lk, rk, (n - 1) as nat);
        let ms = matches_upto(lk[n - 1], rk, rk.len());
        (prev.0 + Seq::new(ms.len(), |x: int| (n - 1) as usize), prev.1 + ms)
    }
}

/// The columns of `f` but the one named `name`, in order.
pub open spec fn drop_named(f: FrameModel, name: Seq<char>) -> FrameModel
    decreases f.len(),
{
    if f.len() == 0 {
        Seq::empty()
    } else {
        let prev = drop_named(f.drop_last(), name);
        if f.last().name == name {
            prev
        } else {
            prev.push(f.last())
        }
    }
}

/// The inner join of `l` and `r` on the columns `lkey` and `rkey`: every left
/// column, then every right column but the key, over the joined row pairs.
pub open spec fn join_frame(l: FrameModel, r: FrameModel, lkey: Seq<char>, rkey: Seq<char>) -> FrameModel {
    let rows = join_rows(col_of(l, lkey).cells, col_of(r, rkey).cells, height(l));
    take_frame(l, rows.0) + take_frame(drop_named(r, rkey), rows.1)
}

/// Whether a right column but the key has the name of a left column.
pub open spec fn join_clash(l: FrameModel, r: FrameModel, rkey: Seq<char>) -> bool {
    exists|c: int| 0 <= c < drop_named(r, rkey).len() && has_col(l, (#[trigger] drop_named(r, rkey)[c]).name)
}

pub proof fn lemma_drop_named_members(f: FrameModel, name: Seq<char>)
    ensures
        drop_named(f, name).len() <= f.len(),
        forall|k: int|
            0 <= k < drop_named(f, name).len() ==> exists|j: int|
                0 <= j < f.len() && #[trigger] drop_named(f, name)[k] == f[j],
        forall|k: int| 0 <= k < drop_named(f, name).len() ==> (#[trigger] drop_named(f, name)[k]).name != name,
    decreases f.len(),
{
    if f.len() > 0 {
        let p = drop_named(f.drop_last(), name);
        lemma_drop_named_members(f.drop_last(), name);
        assert forall|k: int| 0 <= k < drop_named(f, name).len() implies exists|j: int|
            0 <= j < f.len() && #[trigger] drop_named(f, name)[k] == f[j] by {
            if k < p.len() {
                let j = choose|j: int| 0 <= j < f.drop_last().len() && p[k] == f.drop_last()[j];
                assert(drop_named(f, name)[k] == f[j]);
            } else {
                assert(drop_named(f, name)[k] == f[f.len() - 1]);
            }
        }
    }
}

pub proof fn lemma_drop_named_wf(f: FrameModel, name: Seq<char>)
    requires
        frame_wf(f),
    ensures
        frame_wf(drop_named(f, name)),
        f.len() > 0 ==> forall|k: int| 0 <= k < drop_named(f, name).len() ==> (#[trigger] drop_named(f, name)[k]).cells.len() == height(f),
    decreases f.len(),
{
    lemma_drop_named_members(f, name);
    if f.len() > 0 {
        let g = f.drop_last();
        assert(frame_wf(g));
        lemma_drop_named_wf(g, name);
        lemma_drop_named_members(g, name);
        let d = drop_named(f, name);
        let p = drop_named(g, name);
        assert forall|k: int| 0 <= k < d.len() implies (#[trigger] d[k]).cells.len() == height(f) by {
            let j = choose|j: int| 0 <= j < f.len() && d[k] == f[j];
            assert(f[j].cells.len() == f[0].cells.len());
        }
        assert forall|a: int, b: int|
            0 <= a < d.len() && 0 <= b < d.len() && a != b implies (#[trigger] d[a]).name != (#[trigger] d[b]).name by {
            if a < p.len() && b < p.len() {
                assert(d[a] == p[a] && d[b] == p[b]);
            } else if a < p.len() {
                let j = choose|j: int| 0 <= j < g.len() && p[a] == g[j];
                assert(d[a] == f[j]);
                assert(d[b] == f[f.len() - 1]);
            } else {
                let j = choose|j: int| 0 <= j < g.len() && p[b] == g[j];
                assert(d[b] == f[j]);
                assert(d[a] == f[f.len() - 1]);
            }
        }
        assert forall|k: int| 0 <= k < d.len() implies column_wf(#[trigger] d[k]) by {
            let j = choose|j: int| 0 <= j < f.len() && d[k] == f[j];
        }
    }
}

} // verus!

verus! {

pub open spec fn variable_name() -> Seq<char> {
    seq!['v', 'a', 'r', 'i', 'a', 'b', 'l', 'e']
}

pub open spec fn value_name() -> Seq<char> {
    seq!['v', 'a', 'l', 'u', 'e']
}

/// The row positions 0, 1, .., n - 1, repeated `k` times.
pub open spec fn repeat_rows(n: nat, k: nat) -> Seq<usize>
    decreases k,
{
    if k == 0 {
        Seq::empty()
    } else {
        repeat_rows(n, (k - 1) as nat) + Seq::new(n, |x: int| x as usize)
    }
}

/// The `variable` cells of a melt: each value column's name, once per input row.
pub open spec fn melt_names(vals: Seq<Seq<char>>, n: nat) -> Seq<Option<Datum>>
    decreases vals.len(),
{
    if vals.len() == 0 {
        Seq::empty()
    } else {
        melt_names(vals.drop_last(), n) + Seq::new(n, |x: int| Some(Datum::Text(vals.last())))
    }
}

/// The value columns of a melt share one type.
pub open spec fn uniform_type(f: FrameModel, vals: Seq<Seq<char>>) -> bool {
    vals.len() > 0 && forall|k: int|
        0 <= k < vals.len() ==> (#[trigger] col_of(f, vals[k])).dtype == col_of(f, vals[0]).dtype
}

/// The `value` cells of a melt: the value columns' cells one after another,
/// as text when `as_text`.
pub open spec fn melt_values(f: FrameModel, vals: Seq<Seq<char>>, as_text: bool) -> Seq<
    Option<Datum>,
>
    decreases vals.len(),
{
    if vals.len() == 0 {
        Seq::empty()
    } else {
        let c = col_of(f, vals.last()).cells;
        melt_values(f, vals.drop_last(), as_text) + if as_text {
            cast_text_cells(c)
        } else {
            c
        }
    }
}

/// Melt (unpivot): the `ids` columns repeated once per value column, then a
/// `variable` column with the value column's name and a `value` column with its
/// value; the row blocks follow the order of `vals`. The value column keeps the
/// shared type of the value columns, or holds their text when the types differ.
pub open spec fn melt_frame(f: FrameModel, ids: Seq<Seq<char>>, vals: Seq<Seq<char>>) -> FrameModel {
    let uniform = uniform_type(f, vals);
    take_frame(select_frame(f, ids), repeat_rows(height(f), vals.len())).push(
        ColumnModel {
            name: variable_name(),
            dtype: DataType::Utf8,
            cells: melt_names(vals, height(f)),
        },
    ).push(
        ColumnModel {
            name: value_name(),
            dtype: if uniform {
                col_of(f, vals[0]).dtype
            } else {
                DataType::Utf8
            },
            cells: melt_values(f, vals, !uniform),
        },
    )
}

pub proof fn lemma_repeat_rows(n: nat, k: nat)
    ensures
        rows_in_bounds(repeat_rows(n, k), n),
    decreases k,
{
    if k > 0 {
        lemma_repeat_rows(n, (k - 1) as nat);
    }
}

pub proof fn lemma_melt_lengths(f: FrameModel, vals: Seq<Seq<char>>, as_text: bool)
    requires
        frame_wf(f),
        all_present(f, vals),
    ensures
        melt_names(vals, height(f)).len() == repeat_rows(height(f), vals.len()).len(),
        melt_values(f, vals, as_text).len() == repeat_rows(height(f), vals.len()).len(),
    decreases vals.len(),
{
    if vals.len() > 0 {
        let p = vals.drop_last();
        assert(all_present(f, p)) by {
            assert forall|k: int| 0 <= k < p.len() implies has_col(f, #[trigger] p[k]) by {
                assert(p[k] == vals[k]);
            }
        }
        lemma_melt_lengths(f, p, as_text);
        assert(has_col(f, vals[vals.len() - 1]));
        let j = col_pos(f, vals.last());
        assert(f[j].cells.len() == height(f));
    }
}

} // verus!

verus! {

/// The aggregate functions of a group-by.
#[derive(Clone, Copy, Debug, PartialEq, Eq, Structural)]
pub enum AggKind {
    Count,
    Sum,
    Min,
    Max,
}

/// The values of the key columns at row `r`.
pub open spec fn row_key(kf: FrameModel, r: int) -> Seq<Option<Datum>> {
    Seq::new(kf.len(), |c: int| kf[c].cells[r])
}

/// The first group, from position `j` on, whose first row has the key of row `r`; -1 if none.
pub open spec fn find_from(kf: FrameModel, firsts: Seq<usize>, r: int, j: int) -> int
    decreases firsts.len() - j,
{
    if j < 0 || j >= firsts.len() {
        -1
    } else if row_key(kf, firsts[j] as int) == row_key(kf, r) {
        j
    } else {
        find_from(kf, firsts, r, j + 1)
    }
}

/// The first row of each group among the first `n` rows, in order of first
/// appearance. Two nulls in a key are equal.
pub open spec fn group_firsts(kf: FrameModel, n: nat) -> Seq<usize>
    decreases n,
{
    if n == 0 {
        Seq::empty()
    } else {
        let p = group_firsts(kf, (n - 1) as nat);
        if find_from(kf, p, n - 1, 0) >= 0 {
            p
        } else {
            p.push((n - 1) as usize)
        }
    }
}

/// The group of row `r`.
pub open spec fn group_id(kf: FrameModel, r: int) -> int {
    let p = group_firsts(kf, r as nat);
    let g = find_from(kf, p, r, 0);
    if g >= 0 {
        g
    } else {
        p.len() as int
    }
}

pub open spec fn int_of(d: Datum) -> int {
    match d {
        Datum::Int(v) => v as int,
        _ => 0,
    }
}

/// The state of an aggregate before any row: 0 for a count, none otherwise.
pub open spec fn agg_init(kind: AggKind) -> Option<int> {
    if kind == AggKind::Count {
        Some(0)
    } else {
        None
    }
}

/// One row's effect on an aggregate: nulls are skipped.
pub open spec fn agg_step(kind: AggKind, acc: Option<int>, c: Option<Datum>) -> Option<int> {
    match c {
        None => acc,
        Some(d) => {
            let v = int_of(d);
            match kind {
                AggKind::Count => Some(acc.unwrap_or(0) + 1),
                AggKind::Sum => Some(acc.unwrap_or(0) + v),
                AggKind::Min => Some(
                    if acc is Some && acc->0 < v {
                        acc->0
                    } else {
                        v
                    },
                ),
                AggKind::Max => Some(
                    if acc is Some && acc->0 > v {
                        acc->0
                    } else {
                        v
                    },
                ),
            }
        },
    }
}

/// The aggregate of each group over the first `n` rows.
pub open spec fn agg_states(kind: AggKind, cells: Seq<Option<Datum>>, kf: FrameModel, n: nat) -> Seq<
    Option<int>,
>
    decreases n,
{
    if n == 0 {
        Seq::empty()
    } else {
        let p = agg_states(kind, cells, kf, (n - 1) as nat);
        let g = group_id(kf, n - 1);
        if 0 <= g < p.len() {
            p.update(g, agg_step(kind, p[g], cells[n - 1]))
        } else {
            p.push(agg_step(kind, agg_init(kind), cells[n - 1]))
        }
    }
}

pub open spec fn fits_i64(o: Option<int>) -> bool {
    o is Some ==> i64::MIN <= o->0 <= i64::MAX
}

/// Whether an aggregate leaves the range of `i64` at some row among the first `n`.
pub open spec fn agg_overflow(kind: AggKind, cells: Seq<Option<Datum>>, kf: FrameModel, n: nat) -> bool
    decreases n,
{
    if n == 0 {
        false
    } else {
        agg_overflow(kind, cells, kf, (n - 1) as nat) || !fits_i64(
            agg_states(kind, cells, kf, n)[group_id(kf, n - 1)],
        )
    }
}

pub open spec fn kind_name(kind: AggKind) -> Seq<char> {
    match kind {
        AggKind::Count => seq!['c', 'o', 'u', 'n', 't'],
        AggKind::Sum => seq!['s', 'u', 'm'],
        AggKind::Min => seq!['m', 'i', 'n'],
        AggKind::Max => seq!['m', 'a', 'x'],
    }
}

/// The name of an aggregate's output column: the input name, `_` and the kind.
pub open spec fn agg_name(col: Seq<char>, kind: AggKind) -> Seq<char> {
    col + seq!['_'] + kind_name(kind)
}

pub open spec fn agg_column(f: FrameModel, kf: FrameModel, kind: AggKind, col: Seq<char>) -> ColumnModel {
    ColumnModel {
        name: agg_name(col, kind),
        dtype: DataType::Int64,
        cells: agg_states(kind, col_of(f, col).cells, kf, height(f)).map_values(
            |s: Option<int>|
                match s {
                    Some(v) => Some(Datum::Int(v as i64)),
                    None => None,
                },
        ),
    }
}

/// The group-by output: the key columns at each group's first row, then one
/// column per aggregate.
pub open spec fn group_frame(f: FrameModel, keys: Seq<Seq<char>>, aggs: Seq<(AggKind, Seq<char>)>) -> FrameModel {
    let kf = select_frame(f, keys);
    take_frame(kf, group_firsts(kf, height(f))) + aggs.map_values(
        |a: (AggKind, Seq<char>)| agg_column(f, kf, a.0, a.1),
    )
}

pub open spec fn agg_cols_present(f: FrameModel, aggs: Seq<(AggKind, Seq<char>)>) -> bool {
    forall|k: int| 0 <= k < aggs.len() ==> has_col(f, (#[trigger] aggs[k]).1)
}

/// Sums, minima and maxima take `Int64` columns; counts take any.
pub open spec fn agg_types_ok(f: FrameModel, aggs: Seq<(AggKind, Seq<char>)>) -> bool {
    forall|k: int|
        0 <= k < aggs.len() && (#[trigger] aggs[k]).0 != AggKind::Count ==> col_of(f, aggs[k].1).dtype
            == DataType::Int64
}

pub open spec fn any_overflow(f: FrameModel, keys: Seq<Seq<char>>, aggs: Seq<(AggKind, Seq<char>)>) -> bool {
    exists|k: int|
        0 <= k < aggs.len() && agg_overflow(
            (#[trigger] aggs[k]).0,
            col_of(f, aggs[k].1).cells,
            select_frame(f, keys),
            height(f),
        )
}

pub proof fn lemma_find_from(kf: FrameModel, firsts: Seq<usize>, r: int, j: int)
    ensures
        -1 <= find_from(kf, firsts, r, j) < firsts.len(),
        find_from(kf, firsts, r, j) >= 0 ==> find_from(kf, firsts, r, j) >= j,
    decreases firsts.len() - j,
{
    if j >= 0 && j < firsts.len() {
        lemma_find_from(kf, firsts, r, j + 1);
    }
}

pub proof fn lemma_group_firsts(kf: FrameModel, n: nat)
    ensures
        group_firsts(kf, n).len() <= n,
        rows_in_bounds(group_firsts(kf, n), n),
    decreases n,
{
    if n > 0 {
        lemma_group_firsts(kf, (n - 1) as nat);
    }
}

pub proof fn lemma_agg_states_len(kind: AggKind, cells: Seq<Option<Datum>>, kf: FrameModel, n: nat)
    ensures
        agg_states(kind, cells, kf, n).len() == group_firsts(kf, n).len(),
        n > 0 ==> 0 <= group_id(kf, n - 1) < group_firsts(kf, n).len(),
    decreases n,
{
    if n > 0 {
        lemma_agg_states_len(kind, cells, kf, (n - 1) as nat);
        lemma_find_from(kf, group_firsts(kf, (n - 1) as nat), n - 1, 0);
    }
}

pub proof fn lemma_overflow_mono(kind: AggKind, cells: Seq<Option<Datum>>, kf: FrameModel, m: nat, n: nat)
    requires
        m <= n,
        agg_overflow(kind, cells, kf, m),
    ensures
        agg_overflow(kind, cells, kf, n),
    decreases n - m,
{
    if m < n {
        lemma_overflow_mono(kind, cells, kf, m, (n - 1) as nat);
    }
}

} // verus!

verus! {

/// Lexicographic order of texts by code point: -1, 0 or 1.
pub open spec fn text_cmp(a: Seq<char>, b: Seq<char>) -> int
    decreases a.len(),
{
    if a.len() == 0 && b.len() == 0 {
        0
    } else if a.len() == 0 {
        -1
    } else if b.len() == 0 {
        1
    } else if (a[0] as u32) < (b[0] as u32) {
        -1
    } else if (a[0] as u32) > (b[0] as u32) {
        1
    } else {
        text_cmp(a.drop_first(), b.drop_first())
    }
}

/// The order of two values of one type: -1, 0 or 1 (`false` before `true`).
pub open spec fn datum_cmp(a: Datum, b: Datum) -> int {
    match (a, b) {
        (Datum::Int(x), Datum::Int(y)) => if x < y {
            -1
        } else if x > y {
            1
        } else {
            0
        },
        (Datum::Bool(x), Datum::Bool(y)) => if !x && y {
            -1
        } else if x && !y {
            1
        } else {
            0
        },
        (Datum::Text(x), Datum::Text(y)) => text_cmp(x, y),
        _ => 0,
    }
}

/// The order of two cells of a sort key: nulls after every value in either
/// direction; values reversed when descending.
pub open spec fn cell_cmp(a: Option<Datum>, b: Option<Datum>, desc: bool) -> int {
    match (a, b) {
        (None, None) => 0,
        (None, Some(_)) => 1,
        (Some(_), None) => -1,
        (Some(x), Some(y)) => if desc {
            -datum_cmp(x, y)
        } else {
            datum_cmp(x, y)
        },
    }
}

/// The order of rows `a` and `b` over the key columns from the `k`-th on.
pub open spec fn row_cmp(kf: FrameModel, desc: Seq<bool>, a: int, b: int, k: int) -> int
    decreases kf.len() - k,
{
    if k < 0 || k >= kf.len() {
        0
    } else {
        let c = cell_cmp(kf[k].cells[a], kf[k].cells[b], desc[k]);
        if c != 0 {
            c
        } else {
            row_cmp(kf, desc, a, b, k + 1)
        }
    }
}

/// The first position, from `j` on, whose row comes strictly after row `x` by the keys.
pub open spec fn insert_pos(kf: FrameModel, desc: Seq<bool>, s: Seq<usize>, x: int, j: int) -> int
    decreases s.len() - j,
{
    if j < 0 || j >= s.len() {
        s.len() as int
    } else if row_cmp(kf, desc, x, s[j] as int, 0) < 0 {
        j
    } else {
        insert_pos(kf, desc, s, x, j + 1)
    }
}

/// The stable sort of the first `n` rows by the key columns: each row in turn
/// goes after every earlier row whose keys do not come after its own.
pub open spec fn sort_rows(kf: FrameModel, desc: Seq<bool>, n: nat) -> Seq<usize>
    decreases n,
{
    if n == 0 {
        Seq::empty()
    } else {
        let p = sort_rows(kf, desc, (n - 1) as nat);
        p.insert(insert_pos(kf, desc, p, n - 1, 0), (n - 1) as usize)
    }
}

pub proof fn lemma_insert_pos(kf: FrameModel, desc: Seq<bool>, s: Seq<usize>, x: int, j: int)
    requires
        0 <= j <= s.len(),
    ensures
        j <= insert_pos(kf, desc, s, x, j) <= s.len(),
    decreases s.len() - j,
{
    if j < s.len() {
        lemma_insert_pos(kf, desc, s, x, j + 1);
    }
}

pub proof fn lemma_sort_rows(kf: FrameModel, desc: Seq<bool>, n: nat)
    ensures
        sort_rows(kf, desc, n).len() == n,
        rows_in_bounds(sort_rows(kf, desc, n), n),
    decreases n,
{
    if n > 0 {
        let p = sort_rows(kf, desc, (n - 1) as nat);
        lemma_sort_rows(kf, desc, (n - 1) as nat);
        lemma_insert_pos(kf, desc, p, n - 1, 0);
        let q = p.insert(insert_pos(kf, desc, p, n - 1, 0), (n - 1) as usize);
        assert forall|k: int| 0 <= k < q.len() implies (#[trigger] q[k]) < n by {
            let i = insert_pos(kf, desc, p, n - 1, 0);
            if k < i {
                assert(q[k] == p[k]);
            } else if k > i {
                assert(q[k] == p[k - 1]);
            }
        }
    }
}

} // verus!

verus! {

/// A comparison of a column against a literal.
#[derive(Clone, Copy, Debug, PartialEq, Eq, Structural)]
pub enum CmpOp {
    Eq,
    Ne,
    Lt,
    Le,
    Gt,
    Ge,
}

/// Whether an order result (-1, 0 or 1) satisfies the comparison.
pub open spec fn cmp_holds(op: CmpOp, c: int) -> bool {
    match op {
        CmpOp::Eq => c == 0,
        CmpOp::Ne => c != 0,
        CmpOp::Lt => c < 0,
        CmpOp::Le => c <= 0,
        CmpOp::Gt => c > 0,
        CmpOp::Ge => c >= 0,
    }
}

/// The comparison of each cell with a literal: null where the cell is null.
pub open spec fn compare_cells(cells: Seq<Option<Datum>>, op: CmpOp, lit: Datum) -> Seq<Option<Datum>> {
    cells.map_values(
        |c: Option<Datum>|
            match c {
                None => None,
                Some(d) => Some(Datum::Bool(cmp_holds(op, datum_cmp(d, lit)))),
            },
    )
}

} // verus!

verus! {

/// Casts that exist: to the same type, to `Utf8`, and from `Utf8`.
pub open spec fn cast_supported(from: DataType, to: DataType) -> bool {
    from == to || to == DataType::Utf8 || from == DataType::Utf8
}

/// One cell cast from `from` to `to`.
pub open spec fn cast_cell(from: DataType, to: DataType, c: Option<Datum>) -> Option<Datum> {
    match c {
        None => None,
        Some(d) => if from == to {
            Some(d)
        } else if to == DataType::Utf8 {
            Some(Datum::Text(text_of(d)))
        } else {
            match d {
                Datum::Text(s) => crate::csv_model::parse_cell(to, s),
                _ => None,
            }
        },
    }
}

/// Some present value does not survive the cast.
pub open spec fn cast_fails(from: DataType, to: DataType, cells: Seq<Option<Datum>>) -> bool {
    exists|r: int| 0 <= r < cells.len() && cells[r] is Some && (#[trigger] cast_cell(from, to, cells[r])) is None
}

} // verus!

verus! {

/// `true` at the rows whose cell equals `v`, null elsewhere.
pub open spec fn marks(cc: Seq<Option<Datum>>, v: Option<Datum>) -> Seq<Option<Datum>> {
    cc.map_values(
        |c: Option<Datum>|
            if c == v {
                Some(Datum::Bool(true))
            } else {
                None
            },
    )
}

/// The values at the rows whose `cc` cell equals `v`, null elsewhere.
pub open spec fn marked(cc: Seq<Option<Datum>>, v: Option<Datum>, vals: Seq<Option<Datum>>) -> Seq<
    Option<Datum>,
> {
    Seq::new(
        vals.len(),
        |r: int|
            if cc[r] == v {
                vals[r]
            } else {
                None
            },
    )
}

/// One spread column of a pivot: for each index group, the aggregate of the
/// values on the rows whose spread cell is `v`; null where no row has it.
pub open spec fn pivot_cells(
    f: FrameModel,
    index: Seq<char>,
    columns: Seq<char>,
    values: Seq<char>,
    kind: AggKind,
    v: Option<Datum>,
) -> Seq<Option<Datum>> {
    let kf = select_frame(f, seq![index]);
    let cc = col_of(f, columns).cells;
    let present = agg_states(AggKind::Count, marks(cc, v), kf, height(f));
    let st = agg_states(kind, marked(cc, v, col_of(f, values).cells), kf, height(f));
    Seq::new(
        st.len(),
        |g: int|
            if present[g] is Some && present[g]->0 > 0 && st[g] is Some {
                Some(Datum::Int(st[g]->0 as i64))
            } else {
                None
            },
    )
}

/// The distinct spread cells, in order of first appearance.
pub open spec fn spread_cells(f: FrameModel, columns: Seq<char>) -> Seq<Option<Datum>> {
    let kc = select_frame(f, seq![columns]);
    group_firsts(kc, height(f)).map_values(|r: usize| col_of(f, columns).cells[r as int])
}

pub open spec fn cell_text(c: Option<Datum>) -> Seq<char> {
    match c {
        Some(Datum::Text(s)) => s,
        _ => Seq::empty(),
    }
}

/// Pivot: the distinct `index` values in order of first appearance, then one
/// `Int64` column per distinct `columns` value, named by it.
pub open spec fn pivot_frame(
    f: FrameModel,
    index: Seq<char>,
    columns: Seq<char>,
    values: Seq<char>,
    kind: AggKind,
) -> FrameModel {
    let kf = select_frame(f, seq![index]);
    let sp = spread_cells(f, columns);
    take_frame(kf, group_firsts(kf, height(f))) + Seq::new(
        sp.len(),
        |j: int|
            ColumnModel {
                name: cell_text(sp[j]),
                dtype: DataType::Int64,
                cells: pivot_cells(f, index, columns, values, kind, sp[j]),
            },
    )
}

/// Some aggregate of a pivot leaves the range of `i64`.
pub open spec fn pivot_overflow(
    f: FrameModel,
    index: Seq<char>,
    columns: Seq<char>,
    values: Seq<char>,
    kind: AggKind,
) -> bool {
    let kf = select_frame(f, seq![index]);
    let cc = col_of(f, columns).cells;
    let sp = spread_cells(f, columns);
    exists|j: int|
        0 <= j < sp.len() && (agg_overflow(
            AggKind::Count,
            marks(cc, #[trigger] sp[j]),
            kf,
            height(f),
        ) || agg_overflow(kind, marked(cc, sp[j], col_of(f, values).cells), kf, height(f)))
}

} // verus!

verus! {

/// An elementwise arithmetic operation.
#[derive(Clone, Copy, Debug, PartialEq, Eq, Structural)]
pub enum ArithOp {
    Add,
    Sub,
    Mul,
}

pub open spec fn arith_value(op: ArithOp, a: int, b: int) -> int {
    match op {
        ArithOp::Add => a + b,
        ArithOp::Sub => a - b,
        ArithOp::Mul => a * b,
    }
}

/// Row-by-row arithmetic on two integer columns: null where either is null.
pub open spec fn arith_cells(op: ArithOp, a: Seq<Option<Datum>>, b: Seq<Option<Datum>>) -> Seq<
    Option<Datum>,
> {
    Seq::new(
        a.len(),
        |r: int|
            match (a[r], b[r]) {
                (Some(Datum::Int(x)), Some(Datum::Int(y))) => Some(
                    Datum::Int(arith_value(op, x as int, y as int) as i64),
                ),
                _ => None,
            },
    )
}

/// Some row's result leaves the range of `i64`.
pub open spec fn arith_overflows(op: ArithOp, a: Seq<Option<Datum>>, b: Seq<Option<Datum>>) -> bool {
    exists|r: int|
        0 <= r < a.len() && (#[trigger] a[r]) is Some && b[r] is Some && !(i64::MIN <= arith_value(
            op,
            int_of(a[r]->0),
            int_of(b[r]->0),
        ) <= i64::MAX)
}

} // verus!
