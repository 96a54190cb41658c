use vstd::prelude::*;
use crate::model::{DataType, Datum};

verus! {

/// The pieces of `s` between occurrences of `d` (one piece more than there
/// are occurrences).
pub open spec fn split_on(s: Seq<char>, d: char) -> Seq<Seq<char>>
    decreases s.len(),
{
    if s.len() == 0 {
        seq![Seq::empty()]
    } else {
        let p = split_on(s.drop_last(), d);
        if s.last() == d {
            p.push(Seq::empty())
        } else {
            p.update(p.len() - 1, p.last().push(s.last()))
        }
    }
}

pub proof fn lemma_split_nonempty(s: Seq<char>, d: char)
    ensures
        split_on(s, d).len() >= 1,
    decreases s.len(),
{
    if s.len() > 0 {
        lemma_split_nonempty(s.drop_last(), d);
    }
}

/// The lines of a text; an empty last line (after a final newline) is not one.
pub open spec fn text_lines(s: Seq<char>) -> Seq<Seq<char>> {
    let ls = split_on(s, '\n');
    if ls.last().len() == 0 {
        ls.drop_last()
    } else {
        ls
    }
}

pub open spec fn is_digit(c: char) -> bool {
    '0' <= c && c <= '9'
}

pub open spec fn all_digits(s: Seq<char>) -> bool {
    forall|i: int| 0 <= i < s.len() ==> is_digit(#[trigger] s[i])
}

/// The value of a string of decimal digits.
pub open spec fn digits_value(s: Seq<char>) -> int
    decreases s.len(),
{
    if s.len() == 0 {
        0
    } else {
        digits_value(s.drop_last()) * 10 + (s.last() as int - '0' as int)
    }
}

/// The integer that a field spells: digits, after an optional '-'.
pub open spec fn int_value(s: Seq<char>) -> Option<int> {
    if s.len() > 1 && s[0] == '-' && all_digits(s.drop_first()) {
        Some(-digits_value(s.drop_first()))
    } else if s.len() > 0 && all_digits(s) {
        Some(digits_value(s))
    } else {
        None
    }
}

/// The field spells an integer in the range of `i64`.
pub open spec fn is_int_text(s: Seq<char>) -> bool {
    int_value(s) is Some && i64::MIN <= int_value(s)->0 <= i64::MAX
}

pub open spec fn true_text() -> Seq<char> {
    seq!['t', 'r', 'u', 'e']
}

pub open spec fn false_text() -> Seq<char> {
    seq!['f', 'a', 'l', 's', 'e']
}

pub open spec fn is_bool_text(s: Seq<char>) -> bool {
    s == true_text() || s == false_text()
}

/// The type inferred from sampled fields: `Boolean` when every non-empty one
/// is `true` or `false`, else `Int64` when every one is an integer, else
/// `Utf8`; `Utf8` too when none is non-empty.
pub open spec fn infer_type(sample: Seq<Seq<char>>) -> DataType {
    if forall|i: int| 0 <= i < sample.len() ==> (#[trigger] sample[i]).len() == 0 {
        DataType::Utf8
    } else if forall|i: int|
        0 <= i < sample.len() && (#[trigger] sample[i]).len() > 0 ==> is_bool_text(sample[i]) {
        DataType::Boolean
    } else if forall|i: int|
        0 <= i < sample.len() && (#[trigger] sample[i]).len() > 0 ==> is_int_text(sample[i]) {
        DataType::Int64
    } else {
        DataType::Utf8
    }
}

/// A field read as a cell of the given type: empty is null, and so is a
/// field that does not parse as the type.
pub open spec fn parse_cell(t: DataType, s: Seq<char>) -> Option<Datum> {
    if s.len() == 0 {
        None
    } else {
        match t {
            DataType::Boolean => if s == true_text() {
                Some(Datum::Bool(true))
            } else if s == false_text() {
                Some(Datum::Bool(false))
            } else {
                None
            },
            DataType::Int64 => if is_int_text(s) {
                Some(Datum::Int(int_value(s)->0 as i64))
            } else {
                None
            },
            DataType::Utf8 => Some(Datum::Text(s)),
        }
    }
}

} // verus!
