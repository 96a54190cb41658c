use vstd::prelude::*;
use crate::csv_model::{
    all_digits, digits_value, lemma_split_nonempty, false_text, infer_type, int_value, is_bool_text, is_digit,
    is_int_text, parse_cell, split_on, text_lines, true_text,
};
use crate::error::EngineError;
use crate::frame::{views, DataFrame};
use crate::model::{digit_char, digits_of, names_unique, ColumnModel, DataType, FrameModel};
use crate::series::{all_of_type, cells_view, opt_view, Scalar, Series};
use crate::text::text_eq;

verus! {

/// How delimited text is read.
pub struct CsvOptions {
    /// The first line names the columns; without it they are `column_1`, `column_2`, ...
    pub has_header: bool,
    /// How many data rows are sampled to infer each column's type.
    pub infer_rows: usize,
    /// The field separator.
    pub delimiter: char,
}

/// The fields of each line.
pub open spec fn csv_rows(text: Seq<char>, d: char) -> Seq<Seq<Seq<char>>> {
    text_lines(text).map_values(|l: Seq<char>| split_on(l, d))
}

/// Every row has as many fields as the first.
pub open spec fn rectangular(rows: Seq<Seq<Seq<char>>>) -> bool {
    forall|r: int| 0 <= r < rows.len() ==> (#[trigger] rows[r]).len() == rows[0].len()
}

pub open spec fn synthesized_name(c: int) -> Seq<char> {
    seq!['c', 'o', 'l', 'u', 'm', 'n', '_'] + digits_of((c + 1) as nat)
}

pub open spec fn data_rows(rows: Seq<Seq<Seq<char>>>, has_header: bool) -> Seq<Seq<Seq<char>>> {
    if has_header {
        rows.drop_first()
    } else {
        rows
    }
}

pub open spec fn column_fields(data: Seq<Seq<Seq<char>>>, c: int) -> Seq<Seq<char>> {
    data.map_values(|r: Seq<Seq<char>>| r[c])
}

pub open spec fn sample_len(n: nat, infer_rows: nat) -> int {
    if infer_rows < n {
        infer_rows as int
    } else {
        n as int
    }
}

/// The column read from field position `c`: its type inferred from the first
/// `infer_rows` data rows, every field parsed as that type.
pub open spec fn csv_column(rows: Seq<Seq<Seq<char>>>, o: CsvOptions, c: int) -> ColumnModel {
    let data = data_rows(rows, o.has_header);
    let fields = column_fields(data, c);
    let t = infer_type(fields.take(sample_len(fields.len(), o.infer_rows as nat)));
    ColumnModel {
        name: if o.has_header {
            rows[0][c]
        } else {
            synthesized_name(c)
        },
        dtype: t,
        cells: fields.map_values(|f: Seq<char>| parse_cell(t, f)),
    }
}

/// The frame that a text reads as (no column when it has no line).
pub open spec fn csv_frame(text: Seq<char>, o: CsvOptions) -> FrameModel {
    let rows = csv_rows(text, o.delimiter);
    if rows.len() == 0 {
        Seq::empty()
    } else {
        Seq::new(rows[0].len(), |c: int| csv_column(rows, o, c))
    }
}

/// The pieces of `s` between occurrences of `d`.
pub fn split_text(s: &str, d: char) -> (r: Vec<String>)
    ensures
        r@.map_values(|x: String| x@) == split_on(s@, d),
{
    let n = s.unicode_len();
    let mut out: Vec<String> = Vec::new();
    let mut start: usize = 0;
    let mut i: usize = 0;
    assert(s@.take(0) =~= Seq::<char>::empty());
    assert(out@.map_values(|x: String| x@).push(s@.subrange(0, 0)) =~= seq![Seq::<char>::empty()]);
    while i < n
        invariant
            start <= i <= n == s@.len(),
            out@.map_values(|x: String| x@).push(s@.subrange(start as int, i as int)) == split_on(
                s@.take(i as int),
                d,
            ),
        decreases n - i,
    {
        proof {
            assert(s@.take(i + 1).drop_last() =~= s@.take(i as int));
            assert(s@.take(i + 1).last() == s@[i as int]);
        }
        let ghost before = out@.map_values(|x: String| x@);
        if s.get_char(i) == d {
            let piece = String::from_str(s.substring_char(start, i));
            out.push(piece);
            start = i + 1;
            assert(out@.map_values(|x: String| x@) =~= before.push(piece@));
            assert(s@.subrange(start as int, i + 1) =~= Seq::<char>::empty());
        } else {
            assert(s@.subrange(start as int, i + 1) =~= s@.subrange(start as int, i as int).push(
                s@[i as int],
            ));
        }
        i = i + 1;
    }
    assert(s@.take(n as int) =~= s@);
    let last = String::from_str(s.substring_char(start, n));
    let ghost before = out@.map_values(|x: String| x@);
    out.push(last);
    assert(out@.map_values(|x: String| x@) =~= before.push(last@));
    out
}

proof fn lemma_digits_grow(t: Seq<char>, k: int)
    requires
        all_digits(t),
        0 <= k <= t.len(),
    ensures
        0 <= digits_value(t.take(k)) <= digits_value(t),
    decreases t.len(),
{
    if t.len() > 0 {
        let p = t.drop_last();
        assert(all_digits(p));
        if k < t.len() {
            assert(t.take(k) =~= p.take(k));
            lemma_digits_grow(p, k);
        } else {
            assert(t.take(k) =~= t);
            lemma_digits_grow(p, p.len() as int);
            assert(p.take(p.len() as int) =~= p);
        }
        let x = digits_value(p);
        let dg = t.last() as int - '0' as int;
        assert(0 <= dg);
        assert(x * 10 + dg >= x) by (nonlinear_arith)
            requires
                x >= 0,
                dg >= 0,
        ;
    }
}

/// The integer that a field spells, if it is one in the range of `i64`.
pub fn parse_int(s: &str) -> (r: Option<i64>)
    ensures
        r is Some <==> is_int_text(s@),
        r is Some ==> r->0 as int == int_value(s@)->0,
{
    let n = s.unicode_len();
    if n == 0 {
        return None;
    }
    let neg = s.get_char(0) == '-';
    if neg && n == 1 {
        return None;
    }
    let start: usize = if neg {
        1
    } else {
        0
    };
    let ghost body = s@.subrange(start as int, n as int);
    proof {
        if neg {
            assert(body =~= s@.drop_first());
        } else {
            assert(body =~= s@);
        }
    }
    let limit: i128 = 9223372036854775808;
    let mut acc: i128 = 0;
    let mut i: usize = start;
    while i < n
        invariant
            start <= i <= n == s@.len(),
            body == s@.subrange(start as int, n as int),
            n > 0,
            neg == (s@[0] == '-'),
            neg ==> n > 1 && start == 1 && body == s@.drop_first(),
            !neg ==> start == 0 && body == s@,
            0 <= acc <= limit,
            limit == 9223372036854775808,
            acc == digits_value(body.take(i - start)),
            all_digits(body.take(i - start)),
        decreases n - i,
    {
        let c = s.get_char(i);
        proof {
            assert(body.take(i - start + 1).drop_last() =~= body.take(i - start));
            assert(body.take(i - start + 1).last() == c);
        }
        if c < '0' || c > '9' {
            assert(!all_digits(body)) by {
                assert(body[i - start] == c);
            }
            assert(!all_digits(s@)) by {
                if neg {
                    assert(!is_digit(s@[0]));
                } else {
                    assert(s@[i as int] == c);
                }
            }
            return None;
        }
        let dg = (c as u32 - '0' as u32) as i128;
        acc = acc * 10 + dg;
        assert(all_digits(body.take(i - start + 1)));
        if acc > limit {
            proof {
                if all_digits(body) {
                    lemma_digits_grow(body, i - start + 1);
                }
                if neg {
                    assert(!is_digit(s@[0]));
                }
            }
            return None;
        }
        i = i + 1;
    }
    assert(body.take(n - start) =~= body);
    if neg {
        Some((-acc) as i64)
    } else if acc > 9223372036854775807 {
        None
    } else {
        Some(acc as i64)
    }
}

fn digit_string(d: usize) -> (r: String)
    requires
        d < 10,
    ensures
        r@ == seq![digit_char(d as nat)],
{
    proof {
        reveal_strlit("0");
        reveal_strlit("1");
        reveal_strlit("2");
        reveal_strlit("3");
        reveal_strlit("4");
        reveal_strlit("5");
        reveal_strlit("6");
        reveal_strlit("7");
        reveal_strlit("8");
        reveal_strlit("9");
    }
    let s = match d {
        0 => "0",
        1 => "1",
        2 => "2",
        3 => "3",
        4 => "4",
        5 => "5",
        6 => "6",
        7 => "7",
        8 => "8",
        _ => "9",
    };
    let r = String::from_str(s);
    assert(r@ =~= seq![digit_char(d as nat)]);
    r
}

/// The decimal digits of `n`.
pub fn decimal_string(n: usize) -> (r: String)
    ensures
        r@ == digits_of(n as nat),
    decreases n,
{
    if n < 10 {
        digit_string(n)
    } else {
        let head = decimal_string(n / 10);
        let tail = digit_string(n % 10);
        let r = head.concat(tail.as_str());
        assert(r@ =~= digits_of(n as nat));
        r
    }
}

/// A field read as a value of type `t`: `None` when it is empty or does not
/// parse as the type.
pub fn parse_field(t: DataType, f: &str) -> (r: Option<Scalar>)
    ensures
        opt_view(r) == parse_cell(t, f@),
        r is Some ==> crate::model::datum_type(r->0@) == t,
{
    if f.unicode_len() == 0 {
        return None;
    }
    match t {
        DataType::Boolean => {
            let tt = "true";
            let ff = "false";
            proof {
                reveal_strlit("true");
                reveal_strlit("false");
                assert(tt@ =~= true_text());
                assert(ff@ =~= false_text());
            }
            if text_eq(f, tt) {
                Some(Scalar::Bool(true))
            } else if text_eq(f, ff) {
                Some(Scalar::Bool(false))
            } else {
                None
            }
        },
        DataType::Int64 => match parse_int(f) {
            Some(v) => Some(Scalar::Int(v)),
            None => None,
        },
        DataType::Utf8 => Some(Scalar::Text(String::from_str(f))),
    }
}

pub open spec fn fields_view(r: Vec<String>) -> Seq<Seq<char>> {
    r@.map_values(|x: String| x@)
}

pub open spec fn rows_view(rows: Seq<Vec<String>>) -> Seq<Seq<Seq<char>>> {
    rows.map_values(|r: Vec<String>| fields_view(r))
}

/// Reads delimited text into a frame. Fields are split at the delimiter with
/// no quoting; an empty field is null. Each column's type is inferred from
/// the first `infer_rows` data rows (`Boolean`, else `Int64`, else `Utf8`),
/// and a later field that does not parse as that type is null. `ParseError`
/// at the first line whose number of fields differs from the first line's;
/// `SchemaError` when two header names are equal.
pub fn read_csv(text: &str, options: &CsvOptions) -> (r: Result<DataFrame, EngineError>)
    ensures
        r is Ok <==> rectangular(csv_rows(text@, options.delimiter)) && names_unique(
            csv_frame(text@, *options),
        ),
        r is Ok ==> r->Ok_0@ == csv_frame(text@, *options),
        r is Err ==> (r->Err_0 is ParseError <==> !rectangular(csv_rows(text@, options.delimiter))),
        r is Err ==> (r->Err_0 is SchemaError <==> rectangular(csv_rows(text@, options.delimiter))),
        r matches Err(EngineError::ParseError { row, column, raw_text }) ==> ({
            let rows = csv_rows(text@, options.delimiter);
            &&& row < rows.len()
            &&& column == rows[row as int].len()
            &&& rows[row as int].len() != rows[0].len()
            &&& raw_text@ == text_lines(text@)[row as int]
            &&& forall|k: int| 0 <= k < row ==> (#[trigger] rows[k]).len() == rows[0].len()
        }),
{
    let d = options.delimiter;
    let mut lines = split_text(text, '\n');
    proof {
        lemma_split_nonempty(text@, '\n');
    }
    let ghost all = split_on(text@, '\n');
    let nl = lines.len();
    if lines[nl - 1].unicode_len() == 0 {
        lines.pop();
        assert(lines@.map_values(|x: String| x@) =~= all.drop_last());
    }
    let ghost tl = text_lines(text@);
    assert(lines@.map_values(|x: String| x@) == tl);
    let ghost rv = csv_rows(text@, d);
    let mut rows: Vec<Vec<String>> = Vec::new();
    let mut k: usize = 0;
    while k < lines.len()
        invariant
            k <= lines@.len() == tl.len() == rv.len(),
            lines@.map_values(|x: String| x@) == tl,
            d == options.delimiter,
            rv == csv_rows(text@, d),
            tl == text_lines(text@),
            rows@.len() == k,
            forall|j: int| 0 <= j < k ==> fields_view(#[trigger] rows@[j]) == rv[j],
            forall|j: int| 0 <= j < k ==> (#[trigger] rv[j]).len() == rv[0].len(),
        decreases lines@.len() - k,
    {
        let fields = split_text(lines[k].as_str(), d);
        assert(lines@[k as int]@ == tl[k as int]);
        assert(fields_view(fields) == rv[k as int]);
        if k > 0 && fields.len() != rows[0].len() {
            let raw = lines[k].clone();
            assert(fields_view(rows@[0]) == rv[0]);
            assert(rv[k as int].len() != rv[0].len());
            assert(!rectangular(rv));
            return Err(EngineError::ParseError { row: k, column: fields.len(), raw_text: raw });
        }
        rows.push(fields);
        k = k + 1;
    }
    assert(rectangular(rv));
    let n = rows.len();
    if n == 0 {
        let empty: Vec<Series> = Vec::new();
        assert(views(empty@) =~= csv_frame(text@, *options));
        return DataFrame::new(empty);
    }
    let width = rows[0].len();
    let start: usize = if options.has_header {
        1
    } else {
        0
    };
    let nd = n - start;
    let sample: usize = if options.infer_rows < nd {
        options.infer_rows
    } else {
        nd
    };
    let ghost data = data_rows(rv, options.has_header);
    assert(data.len() == nd);
    assert(forall|j: int| 0 <= j < nd ==> #[trigger] data[j] == rv[j + start]);
    let ghost model = csv_frame(text@, *options);
    let mut out: Vec<Series> = Vec::new();
    let mut c: usize = 0;
    while c < width
        invariant
            c <= width == rv[0].len(),
            n == rows@.len() == rv.len() > 0,
            start <= n,
            nd == n - start,
            start == (if options.has_header { 1usize } else { 0usize }),
            sample == sample_len(nd as nat, options.infer_rows as nat),
            d == options.delimiter,
            rv == csv_rows(text@, d),
            rectangular(rv),
            data == data_rows(rv, options.has_header),
            data.len() == nd,
            forall|j: int| 0 <= j < nd ==> #[trigger] data[j] == rv[j + start],
            forall|j: int| 0 <= j < n ==> fields_view(#[trigger] rows@[j]) == rv[j],
            model == csv_frame(text@, *options),
            model.len() == width,
            out@.len() == c,
            forall|x: int| 0 <= x < c ==> (#[trigger] out@[x])@ == model[x],
        decreases width - c,
    {
        let ghost fields = column_fields(data, c as int);
        assert(forall|j: int| 0 <= j < nd ==> #[trigger] fields[j] == rv[j + start][c as int]);
        assert(forall|j: int| 0 <= j < nd ==> (#[trigger] rows@[j + start])@.len() == width) by {
            assert forall|j: int| 0 <= j < nd implies (#[trigger] rows@[j + start])@.len() == width by {
                assert(fields_view(rows@[j + start]) == rv[j + start]);
            }
        }
        // infer the type from the sample
        let mut any_text = false;
        let mut all_bool = true;
        let mut all_int = true;
        let mut k: usize = 0;
        while k < sample
            invariant
                k <= sample <= nd,
                c < width,
                n == rows@.len(),
                nd == n - start,
                forall|j: int| 0 <= j < nd ==> (#[trigger] rows@[j + start])@.len() == width,
                forall|j: int| 0 <= j < nd ==> #[trigger] fields[j] == rows@[j + start]@[c as int]@,
                any_text == exists|j: int| 0 <= j < k && (#[trigger] fields[j]).len() > 0,
                all_bool == forall|j: int| 0 <= j < k && (#[trigger] fields[j]).len() > 0 ==> is_bool_text(fields[j]),
                all_int == forall|j: int| 0 <= j < k && (#[trigger] fields[j]).len() > 0 ==> is_int_text(fields[j]),
            decreases sample - k,
        {
            let ri = k + start;
            assert((rows@[k + start])@.len() == width);
            let f = &rows[ri][c];
            assert(f@ == fields[k as int]);
            if f.unicode_len() > 0 {
                any_text = true;
                let tt = String::from_str("true");
                let ff = String::from_str("false");
                proof {
                    reveal_strlit("true");
                    reveal_strlit("false");
                    assert(tt@ =~= true_text());
                    assert(ff@ =~= false_text());
                }
                if !text_eq(f.as_str(), tt.as_str()) && !text_eq(f.as_str(), ff.as_str()) {
                    all_bool = false;
                }
                if parse_int(f.as_str()).is_none() {
                    all_int = false;
                }
            }
            k = k + 1;
        }
        let t = if !any_text {
            DataType::Utf8
        } else if all_bool {
            DataType::Boolean
        } else if all_int {
            DataType::Int64
        } else {
            DataType::Utf8
        };
        let ghost smp = fields.take(sample as int);
        proof {
            assert(forall|j: int| 0 <= j < sample ==> #[trigger] smp[j] == fields[j]);
            if !any_text {
                assert forall|i: int| 0 <= i < smp.len() implies (#[trigger] smp[i]).len() == 0 by {
                    assert(smp[i] == fields[i]);
                }
            } else {
                let w = choose|j: int| 0 <= j < sample && (#[trigger] fields[j]).len() > 0;
                assert(smp[w].len() > 0);
                if all_bool {
                    assert forall|i: int| 0 <= i < smp.len() && (#[trigger] smp[i]).len() > 0 implies is_bool_text(smp[i]) by {
                        assert(smp[i] == fields[i]);
                    }
                } else {
                    let b = choose|j: int| 0 <= j < sample && (#[trigger] fields[j]).len() > 0 && !is_bool_text(fields[j]);
                    assert(smp[b] == fields[b]);
                    if all_int {
                        assert forall|i: int| 0 <= i < smp.len() && (#[trigger] smp[i]).len() > 0 implies is_int_text(smp[i]) by {
                            assert(smp[i] == fields[i]);
                        }
                    } else {
                        let q = choose|j: int| 0 <= j < sample && (#[trigger] fields[j]).len() > 0 && !is_int_text(fields[j]);
                        assert(smp[q] == fields[q]);
                    }
                }
            }
            assert(t == infer_type(smp));
        }
        // parse every field as that type
        let mut items: Vec<Option<Scalar>> = Vec::new();
        let mut k: usize = 0;
        while k < nd
            invariant
                k <= nd,
                c < width,
                n == rows@.len(),
                nd == n - start,
                forall|j: int| 0 <= j < nd ==> (#[trigger] rows@[j + start])@.len() == width,
                forall|j: int| 0 <= j < nd ==> #[trigger] fields[j] == rows@[j + start]@[c as int]@,
                items@.len() == k,
                all_of_type(items@, t),
                forall|j: int| 0 <= j < k ==> #[trigger] cells_view(items@)[j] == parse_cell(t, fields[j]),
            decreases nd - k,
        {
            let ri = k + start;
            assert((rows@[k + start])@.len() == width);
            let f = &rows[ri][c];
            assert(f@ == fields[k as int]);
            let item = parse_field(t, f.as_str());
            let ghost before = items@;
            items.push(item);
            assert(forall|j: int| 0 <= j < k ==> #[trigger] items@[j] == before[j]);
            assert(cells_view(items@)[k as int] == opt_view(item));
            assert forall|j: int| 0 <= j < k implies #[trigger] cells_view(items@)[j] == parse_cell(t, fields[j]) by {
                assert(cells_view(items@)[j] == opt_view(items@[j]));
                assert(cells_view(before)[j] == opt_view(before[j]));
            }
            k = k + 1;
        }
        let name = if options.has_header {
            rows[0][c].clone()
        } else {
            let prefix = String::from_str("column_");
            proof {
                reveal_strlit("column_");
            }
            let r = prefix.concat(decimal_string(c + 1).as_str());
            assert(r@ =~= synthesized_name(c as int));
            r
        };
        proof {
            assert(fields_view(rows@[0]) == rv[0]);
        }
        let col = Series::build(name.as_str(), t, &items);
        proof {
            let want = csv_column(rv, *options, c as int);
            assert(col@.cells =~= want.cells);
            assert(model[c as int] == want);
        }
        out.push(col);
        c = c + 1;
    }
    assert(views(out@) =~= model);
    DataFrame::new(out)
}

} // verus!
