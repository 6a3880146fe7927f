//! Reading a polynomial from its notation: coefficients separated by commas, from the
//! highest power down to the constant.
use vstd::prelude::*;
use vstd::string::StrSliceExecFns;
use crate::deflation::Error;
use crate::scalar::{decimal_is, Scalar};

verus! {

/// The fields of a comma-separated text. The empty text has one field, which is
/// empty; a comma closes the field before it and opens a new, empty one; any other
/// character joins the field that is open. So a text with `n` commas has `n + 1`
/// fields, and none of them holds a comma.
pub open spec fn fields(text: Seq<char>) -> Seq<Seq<char>>
    decreases text.len(),
{
    if text.len() == 0 {
        seq![Seq::empty()]
    } else {
        let before = fields(text.drop_last());
        if text.last() == ',' {
            before.push(Seq::empty())
        } else {
            before.drop_last().push(before.last().push(text.last()))
        }
    }
}

/// Each of `texts` can be read as the coefficient at its place in `values`.
pub open spec fn reads<S: Scalar>(texts: Seq<Seq<char>>, values: Seq<S>) -> bool {
    &&& values.len() == texts.len()
    &&& forall|i: int| 0 <= i < texts.len() ==> decimal_is(#[trigger] texts[i], Some(values[i]))
}

/// A text without a comma is one field.
pub proof fn plain_text_is_one_field(text: Seq<char>)
    requires
        !text.contains(','),
    ensures
        fields(text) == seq![text],
    decreases text.len(),
{
    if text.len() == 0 {
        assert(text =~= Seq::empty());
    } else {
        let before = text.drop_last();
        assert(!before.contains(',')) by {
            if before.contains(',') {
                let i = choose|i: int| 0 <= i < before.len() && before[i] == ',';
                assert(text[i] == ',');
            }
        }
        plain_text_is_one_field(before);
        assert(before.push(text.last()) =~= text);
    }
}

/// A comma splits: the fields of a text with a comma in it are the fields of what
/// stands before the comma, then the fields of what stands after it.
pub proof fn comma_splits_fields(before: Seq<char>, after: Seq<char>)
    ensures
        fields(before.push(',') + after) == fields(before) + fields(after),
    decreases after.len(),
{
    let text = before.push(',') + after;
    if after.len() == 0 {
        assert(text.drop_last() =~= before);
    } else {
        let shorter = after.drop_last();
        assert(text.drop_last() =~= before.push(',') + shorter);
        comma_splits_fields(before, shorter);
        lemma_fields_nonempty(shorter);
    }
}

/// A text always has a field.
proof fn lemma_fields_nonempty(text: Seq<char>)
    ensures
        fields(text).len() >= 1,
    decreases text.len(),
{
    if text.len() > 0 {
        lemma_fields_nonempty(text.drop_last());
    }
}

/// The fields before a comma stay as they are, whatever follows the comma.
proof fn lemma_fields_before_comma(text: Seq<char>, comma: int, end: int)
    requires
        0 <= comma < end <= text.len(),
        text[comma] == ',',
    ensures
        fields(text.take(comma)).len() < fields(text.take(end)).len(),
        fields(text.take(end)).take(fields(text.take(comma)).len() as int) == fields(
            text.take(comma),
        ),
    decreases end - comma,
{
    assert(text.take(end).drop_last() =~= text.take(end - 1));
    if end > comma + 1 {
        lemma_fields_before_comma(text, comma, end - 1);
    }
}

/// Reads a polynomial from `polynomial`, a list of numbers separated by commas. The
/// fields are read in order, and the first that is not a number ends the reading.
/// A list of numbers with fewer than two of them is no polynomial.
pub fn parse_poly<S: Scalar>(polynomial: &str) -> (result: Result<Vec<S>, Error<S>>)
    ensures
        match result {
            Ok(coefficients) => coefficients.len() >= 2 && reads(
                fields(polynomial@),
                coefficients@,
            ),
            Err(Error::BadCoefficient { index }) => {
                &&& index < fields(polynomial@).len()
                &&& decimal_is::<S>(fields(polynomial@)[index as int], None)
                &&& exists|values: Seq<S>| #[trigger]
                    reads(fields(polynomial@).take(index as int), values)
            },
            Err(Error::TooFewCoefficients { count }) => {
                &&& count == fields(polynomial@).len()
                &&& count < 2
                &&& exists|values: Seq<S>| #[trigger] reads(fields(polynomial@), values)
            },
            Err(_) => false,
        },
{
    let length = polynomial.unicode_len();
    let ghost text = polynomial@;
    let mut coefficients: Vec<S> = Vec::new();
    let mut start: usize = 0;
    let mut i: usize = 0;
    let ghost mut closed: Seq<Seq<char>> = Seq::empty();
    proof {
        assert(text.take(0) =~= Seq::empty());
    }
    while i < length
        invariant
            text == polynomial@,
            length == text.len(),
            start <= i <= length,
            closed.len() == coefficients.len(),
            fields(text.take(i as int)) == closed.push(text.subrange(start as int, i as int)),
            reads(closed, coefficients@),
        decreases length - i,
    {
        let ghost open = text.subrange(start as int, i as int);
        proof {
            assert(text.take(i + 1).drop_last() =~= text.take(i as int));
        }
        if polynomial.get_char(i) == ',' {
            let field = polynomial.substring_char(start, i);
            match S::from_decimal(field) {
                Some(value) => {
                    proof {
                        lemma_reads_one_more(closed, coefficients@, open, value);
                        closed = closed.push(open);
                        assert(text.subrange(i + 1, i + 1) =~= Seq::empty());
                    }
                    coefficients.push(value);
                },
                None => {
                    proof {
                        lemma_fields_before_comma(text, i as int, length as int);
                        assert(text.take(length as int) =~= text);
                        assert(fields(text)[closed.len() as int] == closed.push(
                            open,
                        )[closed.len() as int]);
                        assert(fields(text).take(closed.len() as int) =~= closed);
                    }
                    return Err(Error::BadCoefficient { index: coefficients.len() });
                },
            }
            start = i + 1;
        } else {
            assert(open.push(text[i as int]) =~= text.subrange(start as int, i + 1));
        }
        i += 1;
    }
    let ghost open = text.subrange(start as int, length as int);
    proof {
        assert(text.take(length as int) =~= text);
    }
    let field = polynomial.substring_char(start, length);
    match S::from_decimal(field) {
        Some(value) => {
            proof {
                lemma_reads_one_more(closed, coefficients@, open, value);
            }
            coefficients.push(value);
        },
        None => {
            proof {
                assert(fields(text).take(closed.len() as int) =~= closed);
            }
            return Err(Error::BadCoefficient { index: coefficients.len() });
        },
    }
    if coefficients.len() < 2 {
        return Err(Error::TooFewCoefficients { count: coefficients.len() });
    }
    Ok(coefficients)
}

/// What was read stays read when one more text and its coefficient join.
proof fn lemma_reads_one_more<S: Scalar>(
    texts: Seq<Seq<char>>,
    values: Seq<S>,
    text: Seq<char>,
    value: S,
)
    requires
        reads(texts, values),
        decimal_is(text, Some(value)),
    ensures
        reads(texts.push(text), values.push(value)),
{
}

} // verus!
