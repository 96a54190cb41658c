use vstd::prelude::*;
use crate::model::{
    all_present, cell_cmp, col_of, distinct, names_unique, col_pos, column_wf, datum_cmp, datum_type, frame_wf, has_col, height,
    insert_pos, lemma_col_pos, lemma_insert_pos, lemma_sort_rows, row_cmp, select_frame, sort_rows, take_column, take_frame, text_cmp, ColumnModel, Datum, FrameModel,
};

verus! {

proof fn lemma_text_antisym(a: Seq<char>, b: Seq<char>)
    ensures
        text_cmp(a, b) == -text_cmp(b, a),
        -1 <= text_cmp(a, b) <= 1,
    decreases a.len(),
{
    if a.len() > 0 && b.len() > 0 {
        lemma_text_antisym(a.drop_first(), b.drop_first());
    }
}

proof fn lemma_text_trans(a: Seq<char>, b: Seq<char>, c: Seq<char>)
    requires
        text_cmp(a, b) >= 0,
        text_cmp(b, c) >= 0,
    ensures
        text_cmp(a, c) >= 0,
        text_cmp(a, b) > 0 || text_cmp(b, c) > 0 ==> text_cmp(a, c) > 0,
    decreases a.len(),
{
    lemma_text_antisym(a, b);
    lemma_text_antisym(b, c);
    if a.len() > 0 && b.len() > 0 && c.len() > 0 {
        if (a[0] as u32) == (b[0] as u32) && (b[0] as u32) == (c[0] as u32) {
            lemma_text_trans(a.drop_first(), b.drop_first(), c.drop_first());
        }
    }
}

proof fn lemma_datum_antisym(a: Datum, b: Datum)
    ensures
        datum_cmp(a, b) == -datum_cmp(b, a),
        -1 <= datum_cmp(a, b) <= 1,
{
    match (a, b) {
        (Datum::Text(x), Datum::Text(y)) => lemma_text_antisym(x, y),
        _ => {},
    }
}

proof fn lemma_datum_trans(a: Datum, b: Datum, c: Datum)
    requires
        datum_type(a) == datum_type(b),
        datum_type(b) == datum_type(c),
        datum_cmp(a, b) >= 0,
        datum_cmp(b, c) >= 0,
    ensures
        datum_cmp(a, c) >= 0,
        datum_cmp(a, b) > 0 || datum_cmp(b, c) > 0 ==> datum_cmp(a, c) > 0,
{
    match (a, b, c) {
        (Datum::Text(x), Datum::Text(y), Datum::Text(z)) => lemma_text_trans(x, y, z),
        _ => {},
    }
}

/// Cells of one column compare as a total preorder.
proof fn lemma_cell_laws(col: ColumnModel, desc: bool, a: int, b: int, c: int)
    requires
        column_wf(col),
        0 <= a < col.cells.len(),
        0 <= b < col.cells.len(),
        0 <= c < col.cells.len(),
    ensures
        cell_cmp(col.cells[a], col.cells[b], desc) == -cell_cmp(col.cells[b], col.cells[a], desc),
        cell_cmp(col.cells[a], col.cells[b], desc) >= 0 && cell_cmp(col.cells[b], col.cells[c], desc)
            >= 0 ==> cell_cmp(col.cells[a], col.cells[c], desc) >= 0,
        cell_cmp(col.cells[a], col.cells[b], desc) >= 0 && cell_cmp(col.cells[b], col.cells[c], desc)
            >= 0 && (cell_cmp(col.cells[a], col.cells[b], desc) > 0 || cell_cmp(
            col.cells[b],
            col.cells[c],
            desc,
        ) > 0) ==> cell_cmp(col.cells[a], col.cells[c], desc) > 0,
{
    let (x, y, z) = (col.cells[a], col.cells[b], col.cells[c]);
    if x is Some && y is Some {
        lemma_datum_antisym(x->0, y->0);
    }
    if x is Some && y is Some && z is Some {
        lemma_datum_antisym(x->0, y->0);
        lemma_datum_antisym(y->0, z->0);
        lemma_datum_antisym(x->0, z->0);
        if desc {
            if datum_cmp(z->0, y->0) >= 0 && datum_cmp(y->0, x->0) >= 0 {
                lemma_datum_trans(z->0, y->0, x->0);
            }
        } else {
            if datum_cmp(x->0, y->0) >= 0 && datum_cmp(y->0, z->0) >= 0 {
                lemma_datum_trans(x->0, y->0, z->0);
            }
        }
    }
}

/// Rows compare as a total preorder over the key columns from the `k`-th on.
proof fn lemma_row_laws(kf: FrameModel, desc: Seq<bool>, a: int, b: int, c: int, k: int)
    requires
        frame_wf(kf),
        desc.len() == kf.len(),
        0 <= a < height(kf),
        0 <= b < height(kf),
        0 <= c < height(kf),
        0 <= k,
    ensures
        row_cmp(kf, desc, a, b, k) == -row_cmp(kf, desc, b, a, k),
        row_cmp(kf, desc, a, b, k) >= 0 && row_cmp(kf, desc, b, c, k) >= 0 ==> row_cmp(kf, desc, a, c, k) >= 0,
        row_cmp(kf, desc, a, b, k) >= 0 && row_cmp(kf, desc, b, c, k) > 0 ==> row_cmp(kf, desc, a, c, k) > 0,
        row_cmp(kf, desc, a, b, k) > 0 && row_cmp(kf, desc, b, c, k) >= 0 ==> row_cmp(kf, desc, a, c, k) > 0,
    decreases kf.len() - k,
{
    if k < kf.len() {
        assert(kf[k].cells.len() == height(kf));
        lemma_cell_laws(kf[k], desc[k], a, b, c);
        lemma_cell_laws(kf[k], desc[k], b, a, c);
        lemma_cell_laws(kf[k], desc[k], a, c, b);
        lemma_row_laws(kf, desc, a, b, c, k + 1);
    }
}

/// Every earlier row of a sorted order does not come after a later one.
pub open spec fn ordered(kf: FrameModel, desc: Seq<bool>, s: Seq<usize>) -> bool {
    forall|i: int, j: int|
        0 <= i < j < s.len() ==> row_cmp(kf, desc, #[trigger] s[j] as int, #[trigger] s[i] as int, 0) >= 0
}

proof fn lemma_sort_rows_ordered(kf: FrameModel, desc: Seq<bool>, n: nat)
    requires
        frame_wf(kf),
        desc.len() == kf.len(),
        kf.len() > 0,
        n <= height(kf) <= usize::MAX,
    ensures
        ordered(kf, desc, sort_rows(kf, desc, n)),
    decreases n,
{
    if n > 0 {
        let p = sort_rows(kf, desc, (n - 1) as nat);
        lemma_sort_rows_ordered(kf, desc, (n - 1) as nat);
        lemma_sort_rows(kf, desc, (n - 1) as nat);
        let x = n - 1;
        let q = insert_pos(kf, desc, p, x, 0);
        lemma_insert_pos(kf, desc, p, x, 0);
        lemma_insert_pos_facts(kf, desc, p, x, 0);
        let s = p.insert(q, x as usize);
        assert forall|i: int, j: int| 0 <= i < j < s.len() implies row_cmp(
            kf,
            desc,
            #[trigger] s[j] as int,
            #[trigger] s[i] as int,
            0,
        ) >= 0 by {
            if j < q {
                assert(s[i] == p[i] && s[j] == p[j]);
            } else if j == q {
                assert(s[i] == p[i]);
                assert(row_cmp(kf, desc, x, p[i] as int, 0) >= 0);
            } else if i < q {
                assert(s[i] == p[i] && s[j] == p[j - 1]);
            } else if i == q {
                assert(s[j] == p[j - 1]);
                // x comes strictly before p[q], and p[j - 1] does not come before p[q]
                lemma_row_laws(kf, desc, x, p[q] as int, p[j - 1] as int, 0);
                lemma_row_laws(kf, desc, p[j - 1] as int, p[q] as int, x, 0);
                if j - 1 > q {
                    assert(row_cmp(kf, desc, p[j - 1] as int, p[q] as int, 0) >= 0);
                }
            } else {
                assert(s[i] == p[i - 1] && s[j] == p[j - 1]);
            }
        }
    }
}

proof fn lemma_insert_pos_facts(kf: FrameModel, desc: Seq<bool>, s: Seq<usize>, x: int, j: int)
    requires
        0 <= j <= s.len(),
    ensures
        forall|i: int| j <= i < insert_pos(kf, desc, s, x, j) ==> row_cmp(kf, desc, x, #[trigger] s[i] as int, 0) >= 0,
        insert_pos(kf, desc, s, x, j) < s.len() ==> row_cmp(kf, desc, x, s[insert_pos(kf, desc, s, x, j)] as int, 0) < 0,
    decreases s.len() - j,
{
    if j < s.len() {
        lemma_insert_pos_facts(kf, desc, s, x, j + 1);
    }
}

/// On rows already in order, the stable sort keeps every row in place.
proof fn lemma_sorted_identity(kf: FrameModel, desc: Seq<bool>, n: nat)
    requires
        n <= usize::MAX,
        forall|i: int, j: int| 0 <= i < j < n ==> row_cmp(kf, desc, j, i, 0) >= 0,
    ensures
        sort_rows(kf, desc, n) == Seq::new(n, |x: int| x as usize),
    decreases n,
{
    if n > 0 {
        lemma_sorted_identity(kf, desc, (n - 1) as nat);
        let p = sort_rows(kf, desc, (n - 1) as nat);
        lemma_insert_pos(kf, desc, p, n - 1, 0);
        lemma_insert_pos_facts(kf, desc, p, n - 1, 0);
        let q = insert_pos(kf, desc, p, n - 1, 0);
        if q < p.len() {
            assert(p[q] == q);
            assert(row_cmp(kf, desc, n - 1, q, 0) >= 0);
        }
        assert(p.insert(q, (n - 1) as usize) =~= Seq::new(n, |x: int| x as usize));
    }
}

proof fn lemma_take_identity(f: FrameModel)
    requires
        frame_wf(f),
        height(f) <= usize::MAX,
    ensures
        take_frame(f, Seq::new(height(f), |x: int| x as usize)) == f,
{
    let id = Seq::new(height(f), |x: int| x as usize);
    let g = take_frame(f, id);
    assert forall|c: int| 0 <= c < f.len() implies #[trigger] g[c] == f[c] by {
        assert(f[c].cells.len() == height(f));
        assert(g[c].cells =~= f[c].cells);
    }
    assert(g =~= f);
}

proof fn lemma_select_take(f: FrameModel, keys: Seq<Seq<char>>, rows: Seq<usize>)
    requires
        frame_wf(f),
        all_present(f, keys),
    ensures
        select_frame(take_frame(f, rows), keys) == take_frame(select_frame(f, keys), rows),
        all_present(take_frame(f, rows), keys),
{
    let g = take_frame(f, rows);
    assert(names_unique(g)) by {
        assert forall|i: int, j: int|
            0 <= i < g.len() && 0 <= j < g.len() && i != j implies (#[trigger] g[i]).name != (
            #[trigger] g[j]).name by {
            assert(f[i].name != f[j].name);
        }
    }
    assert forall|k: int| 0 <= k < keys.len() implies has_col(g, #[trigger] keys[k]) && col_of(
        g,
        keys[k],
    ) == take_column(col_of(f, keys[k]), rows) by {
        assert(has_col(f, keys[k]));
        let i = col_pos(f, keys[k]);
        lemma_col_pos(f, i);
        assert(g[i].name == keys[k]);
        lemma_col_pos(g, i);
    }
    assert(select_frame(g, keys) =~= take_frame(select_frame(f, keys), rows));
}

proof fn lemma_row_cmp_take(kf: FrameModel, desc: Seq<bool>, rows: Seq<usize>, a: int, b: int, k: int)
    requires
        0 <= a < rows.len(),
        0 <= b < rows.len(),
        0 <= k,
    ensures
        row_cmp(take_frame(kf, rows), desc, a, b, k) == row_cmp(kf, desc, rows[a] as int, rows[b] as int, k),
    decreases kf.len() - k,
{
    if k < kf.len() {
        lemma_row_cmp_take(kf, desc, rows, a, b, k + 1);
    }
}

/// Sorting again, by the same keys and directions, a frame that the sort
/// has just put in order changes nothing: the re-sort finds every key and
/// gives the frame back.
pub proof fn law_sort_idempotent(f: FrameModel, keys: Seq<Seq<char>>, desc: Seq<bool>)
    requires
        frame_wf(f),
        all_present(f, keys),
        distinct(keys),
        desc.len() == keys.len(),
        height(f) <= usize::MAX,
    ensures
        all_present(take_frame(f, sort_rows(select_frame(f, keys), desc, height(f))), keys),
        take_frame(
            take_frame(f, sort_rows(select_frame(f, keys), desc, height(f))),
            sort_rows(
                select_frame(take_frame(f, sort_rows(select_frame(f, keys), desc, height(f))), keys),
                desc,
                height(take_frame(f, sort_rows(select_frame(f, keys), desc, height(f)))),
            ),
        ) == take_frame(f, sort_rows(select_frame(f, keys), desc, height(f))),
{
    let n = height(f);
    let kf = select_frame(f, keys);
    let rows = sort_rows(kf, desc, n);
    let g = take_frame(f, rows);
    lemma_sort_rows(kf, desc, n);
    lemma_select_take(f, keys, rows);
    let kg = select_frame(g, keys);
    assert(frame_wf(g)) by {
        assert forall|i: int| 0 <= i < g.len() implies column_wf(#[trigger] g[i]) by {
            assert(column_wf(f[i]));
            assert forall|r: int| 0 <= r < g[i].cells.len() && (#[trigger] g[i].cells[r]) is Some implies datum_type(
                g[i].cells[r]->0,
            ) == g[i].dtype by {
                assert(g[i].cells[r] == f[i].cells[rows[r] as int]);
            }
        }
        assert forall|i: int, j: int|
            0 <= i < g.len() && 0 <= j < g.len() && i != j implies (#[trigger] g[i]).name != (
            #[trigger] g[j]).name by {
            assert(f[i].name != f[j].name);
        }
    }
    assert(f.len() > 0 ==> height(g) == n);
    if f.len() == 0 {
        assert(g =~= f);
        assert(take_frame(g, sort_rows(kg, desc, height(g))) =~= g);
    } else if keys.len() == 0 {
        lemma_sorted_identity(kf, desc, n);
        lemma_take_identity(f);
        assert(kg =~= Seq::<ColumnModel>::empty());
        lemma_sorted_identity(kg, desc, height(g));
        lemma_take_identity(g);
    } else {
        assert(kf.len() > 0);
        assert(frame_wf(kf)) by {
            let h = kf;
            assert forall|i: int| 0 <= i < h.len() implies column_wf(#[trigger] h[i]) by {
                assert(has_col(f, keys[i]));
                assert(h[i] == f[col_pos(f, keys[i])]);
            }
            assert forall|i: int, j: int|
                0 <= i < h.len() && 0 <= j < h.len() implies (#[trigger] h[i]).cells.len() == (
                #[trigger] h[j]).cells.len() by {
                assert(has_col(f, keys[i]));
                assert(has_col(f, keys[j]));
                assert(h[i] == f[col_pos(f, keys[i])]);
                assert(h[j] == f[col_pos(f, keys[j])]);
            }
            assert forall|i: int, j: int|
                0 <= i < h.len() && 0 <= j < h.len() && i != j implies (#[trigger] h[i]).name != (
                #[trigger] h[j]).name by {
                assert(has_col(f, keys[i]));
                assert(has_col(f, keys[j]));
            }
        }
        assert(has_col(f, keys[0]));
        assert(f[col_pos(f, keys[0])].cells.len() == n);
        assert(height(kf) == n);
        lemma_sort_rows_ordered(kf, desc, n);
        assert forall|i: int, j: int| 0 <= i < j < n implies row_cmp(kg, desc, j, i, 0) >= 0 by {
            lemma_row_cmp_take(kf, desc, rows, j, i, 0);
            assert(row_cmp(kf, desc, rows[j] as int, rows[i] as int, 0) >= 0);
        }
        lemma_sorted_identity(kg, desc, n);
        lemma_take_identity(g);
    }
}

} // verus!
