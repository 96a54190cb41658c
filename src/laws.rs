use vstd::prelude::*;
use crate::model::{
    agg_init, agg_states, agg_step, col_pos, drop_named, group_id, has_col, join_frame, join_rows,
    keys_match, lemma_agg_states_len, matches_upto, AggKind,
};
use crate::model::{
    all_present, col_of, distinct, fill_with, frame_wf, height, lemma_col_pos, mask_rows,
    null_count_of, select_frame, take_frame, zero_of, DataType, Datum, FrameModel,
};

verus! {

/// Selecting the same names again from a selection's output finds every
/// column and gives that output back unchanged.
pub proof fn law_select_idempotent(f: FrameModel, names: Seq<Seq<char>>)
    requires
        frame_wf(f),
        all_present(f, names),
        distinct(names),
    ensures
        all_present(select_frame(f, names), names),
        distinct(names),
        select_frame(select_frame(f, names), names) == select_frame(f, names),
{
    let g = select_frame(f, names);
    assert forall|k: int| 0 <= k < names.len() implies (#[trigger] g[k]).name == names[k] by {
        assert(crate::model::has_col(f, names[k]));
    }
    assert(crate::model::names_unique(g));
    assert forall|k: int| 0 <= k < names.len() implies crate::model::has_col(
        g,
        #[trigger] names[k],
    ) && col_of(g, names[k]) == g[k] by {
        lemma_col_pos(g, k);
    }
    assert(select_frame(g, names) =~= g);
}

pub proof fn lemma_all_true_rows(mask: Seq<Option<Datum>>)
    requires
        mask.len() <= usize::MAX,
        forall|i: int| 0 <= i < mask.len() ==> mask[i] == Some(Datum::Bool(true)),
    ensures
        mask_rows(mask).len() == mask.len(),
        forall|k: int| 0 <= k < mask.len() ==> mask_rows(mask)[k] == k,
    decreases mask.len(),
{
    if mask.len() > 0 {
        lemma_all_true_rows(mask.drop_last());
        assert(mask.last() == Some(Datum::Bool(true)));
        let prev = mask_rows(mask.drop_last());
        assert(mask_rows(mask) == prev.push((mask.len() - 1) as usize));
        assert forall|k: int| 0 <= k < mask.len() implies mask_rows(mask)[k] == k by {
            if k < mask.len() - 1 {
                assert(mask_rows(mask)[k] == prev[k]);
            }
        }
    }
}

pub proof fn lemma_no_true_rows(mask: Seq<Option<Datum>>)
    requires
        forall|i: int| 0 <= i < mask.len() ==> mask[i] != Some(Datum::Bool(true)),
    ensures
        mask_rows(mask).len() == 0,
    decreases mask.len(),
{
    if mask.len() > 0 {
        lemma_no_true_rows(mask.drop_last());
    }
}

/// Filtering by a mask that is `true` at every row gives the frame back.
pub proof fn law_filter_all_true(f: FrameModel, mask: Seq<Option<Datum>>)
    requires
        frame_wf(f),
        mask.len() == height(f) <= usize::MAX,
        forall|i: int| 0 <= i < mask.len() ==> mask[i] == Some(Datum::Bool(true)),
    ensures
        take_frame(f, mask_rows(mask)) == f,
{
    lemma_all_true_rows(mask);
    let g = take_frame(f, mask_rows(mask));
    assert forall|c: int| 0 <= c < f.len() implies #[trigger] g[c] == f[c] by {
        assert(f[c].cells.len() == f[0].cells.len());
        assert(g[c].cells =~= f[c].cells);
    }
    assert(g =~= f);
}

/// Filtering by a mask with no `true` row gives a frame with the same
/// columns, names and types, and no rows.
pub proof fn law_filter_all_false(f: FrameModel, mask: Seq<Option<Datum>>)
    requires
        frame_wf(f),
        mask.len() == height(f),
        forall|i: int| 0 <= i < mask.len() ==> mask[i] != Some(Datum::Bool(true)),
    ensures
        take_frame(f, mask_rows(mask)).len() == f.len(),
        height(take_frame(f, mask_rows(mask))) == 0,
        forall|c: int|
            0 <= c < f.len() ==> (#[trigger] take_frame(f, mask_rows(mask))[c]).name == f[c].name
                && take_frame(f, mask_rows(mask))[c].dtype == f[c].dtype
                && take_frame(f, mask_rows(mask))[c].cells.len() == 0,
{
    lemma_no_true_rows(mask);
}

/// After the zero fill a column holds no null.
pub proof fn law_fill_zero_no_nulls(cells: Seq<Option<Datum>>, t: DataType)
    ensures
        null_count_of(fill_with(cells, zero_of(t))) == 0,
        forall|i: int| 0 <= i < cells.len() ==> (#[trigger] fill_with(cells, zero_of(t))[i]) is Some,
    decreases cells.len(),
{
    if cells.len() > 0 {
        law_fill_zero_no_nulls(cells.drop_last(), t);
        assert(fill_with(cells, zero_of(t)).drop_last() =~= fill_with(cells.drop_last(), zero_of(t)));
    }
}

} // verus!

verus! {

/// The total of a sequence of aggregate states, a missing state counting 0.
pub open spec fn sum_states(s: Seq<Option<int>>) -> int
    decreases s.len(),
{
    if s.len() == 0 {
        0
    } else {
        sum_states(s.drop_last()) + s.last().unwrap_or(0)
    }
}

pub proof fn lemma_sum_update(s: Seq<Option<int>>, g: int, v: Option<int>)
    requires
        0 <= g < s.len(),
    ensures
        sum_states(s.update(g, v)) == sum_states(s) - s[g].unwrap_or(0) + v.unwrap_or(0),
    decreases s.len(),
{
    let t = s.update(g, v);
    if g < s.len() - 1 {
        assert(t.drop_last() =~= s.drop_last().update(g, v));
        lemma_sum_update(s.drop_last(), g, v);
    } else {
        assert(t.drop_last() =~= s.drop_last());
    }
}

/// Over any grouping, the counts of the groups add up to the number of present
/// values of the counted column among the rows grouped: every row belongs to
/// exactly one group, rows with null keys included (they form a group of their
/// own). With no null in the column, that is the number of rows.
pub proof fn law_group_counts_sum(cells: Seq<Option<Datum>>, kf: FrameModel, n: nat)
    requires
        n <= cells.len(),
    ensures
        sum_states(agg_states(AggKind::Count, cells, kf, n)) == n - null_count_of(cells.take(n as int)),
    decreases n,
{
    if n > 0 {
        law_group_counts_sum(cells, kf, (n - 1) as nat);
        lemma_agg_states_len(AggKind::Count, cells, kf, n);
        lemma_agg_states_len(AggKind::Count, cells, kf, (n - 1) as nat);
        assert(cells.take(n as int).drop_last() =~= cells.take(n - 1));
        let p = agg_states(AggKind::Count, cells, kf, (n - 1) as nat);
        let g = group_id(kf, n - 1);
        if 0 <= g < p.len() {
            lemma_sum_update(p, g, agg_step(AggKind::Count, p[g], cells[n - 1]));
        } else {
            let q = p.push(agg_step(AggKind::Count, agg_init(AggKind::Count), cells[n - 1]));
            assert(q.drop_last() =~= p);
        }
    }
}

pub proof fn lemma_no_matches(k: Option<Datum>, rk: Seq<Option<Datum>>, m: nat)
    requires
        m <= rk.len(),
        forall|j: int| 0 <= j < rk.len() ==> !keys_match(k, #[trigger] rk[j]),
    ensures
        matches_upto(k, rk, m).len() == 0,
    decreases m,
{
    if m > 0 {
        lemma_no_matches(k, rk, (m - 1) as nat);
    }
}

pub proof fn lemma_no_join_rows(lk: Seq<Option<Datum>>, rk: Seq<Option<Datum>>, n: nat)
    requires
        n <= lk.len(),
        forall|i: int, j: int|
            0 <= i < lk.len() && 0 <= j < rk.len() ==> !keys_match(#[trigger] lk[i], #[trigger] rk[j]),
    ensures
        join_rows(lk, rk, n).0.len() == 0,
        join_rows(lk, rk, n).1.len() == 0,
    decreases n,
{
    if n > 0 {
        lemma_no_join_rows(lk, rk, (n - 1) as nat);
        lemma_no_matches(lk[n - 1], rk, rk.len());
    }
}

/// An inner join whose key columns share no present value has no rows; its
/// columns are the left ones, then the right ones but the key, with their
/// names and types.
pub proof fn law_join_disjoint_keys(l: FrameModel, r: FrameModel, lkey: Seq<char>, rkey: Seq<char>)
    requires
        frame_wf(l),
        frame_wf(r),
        has_col(l, lkey),
        has_col(r, rkey),
        forall|i: int, j: int|
            0 <= i < col_of(l, lkey).cells.len() && 0 <= j < col_of(r, rkey).cells.len()
                ==> !keys_match(#[trigger] col_of(l, lkey).cells[i], #[trigger] col_of(r, rkey).cells[j]),
    ensures
        join_frame(l, r, lkey, rkey).len() == l.len() + drop_named(r, rkey).len(),
        forall|c: int|
            0 <= c < join_frame(l, r, lkey, rkey).len() ==> (#[trigger] join_frame(l, r, lkey, rkey)[c]).cells.len() == 0,
        forall|c: int|
            0 <= c < l.len() ==> (#[trigger] join_frame(l, r, lkey, rkey)[c]).name == l[c].name
                && join_frame(l, r, lkey, rkey)[c].dtype == l[c].dtype,
        forall|c: int|
            0 <= c < drop_named(r, rkey).len() ==> (#[trigger] join_frame(l, r, lkey, rkey)[l.len() + c]).name
                == drop_named(r, rkey)[c].name && join_frame(l, r, lkey, rkey)[l.len() + c].dtype
                == drop_named(r, rkey)[c].dtype,
{
    let lk = col_of(l, lkey).cells;
    let rk = col_of(r, rkey).cells;
    let j = col_pos(l, lkey);
    assert(l[j].cells.len() == height(l));
    lemma_no_join_rows(lk, rk, height(l));
}

} // verus!
