//! The shape of a matched version, read from the matched bytes.
//!
//! A match made only of digits and dots is numeric: with exactly two dots it
//! is `major.minor.patch` and Ideal, otherwise General. A match that holds
//! anything else carries a pre-release or build part and is Complex.
use vstd::prelude::*;
use crate::grammar::{
    dotted, is_digit, is_letter_or_hyphen, is_number_text, lemma_plain_numbers_extracted_whole,
    version_span, DOT,
};

verus! {

/// The three mutually exclusive shapes of a parsed version.
#[derive(Clone, Copy, Debug, PartialEq, Eq, Structural)]
pub enum Shape {
    /// Exactly `major.minor.patch`, with no pre-release and no build part.
    Ideal,
    /// Numbers joined by dots, in any count but three.
    General,
    /// A version with a pre-release or build part.
    Complex,
}

/// Every byte of `b` in `[i, e)` is a digit or a dot.
pub open spec fn numeric_between(b: Seq<u8>, i: int, e: int) -> bool
    decreases e - i,
{
    if i >= e {
        true
    } else {
        (is_digit(b[i]) || b[i] == DOT) && numeric_between(b, i + 1, e)
    }
}

/// The number of dots in `b` in `[i, e)`.
pub open spec fn dots_between(b: Seq<u8>, i: int, e: int) -> int
    decreases e - i,
{
    if i >= e {
        0
    } else {
        (if b[i] == DOT { 1int } else { 0int }) + dots_between(b, i + 1, e)
    }
}

/// The shape of the match that covers `[start, end)` of `b`.
pub open spec fn span_shape(b: Seq<u8>, start: int, end: int) -> Shape {
    if numeric_between(b, start, end) {
        if dots_between(b, start, end) == 2 {
            Shape::Ideal
        } else {
            Shape::General
        }
    } else {
        Shape::Complex
    }
}

/// The shape of the leftmost match in the label whose bytes are `b`.
pub open spec fn extracted_shape(b: Seq<u8>) -> Option<Shape> {
    match version_span(b) {
        Some((start, end)) => Some(span_shape(b, start, end)),
        None => None,
    }
}

/// The shape of the match that covers `[start, end)` of `b`.
pub fn classify(b: &[u8], start: usize, end: usize) -> (r: Shape)
    requires
        start <= end <= b@.len(),
    ensures
        r == span_shape(b@, start as int, end as int),
{
    let mut i: usize = end;
    let mut numeric = true;
    let mut dots: usize = 0;
    while i > start
        invariant
            start <= i <= end <= b@.len(),
            numeric == numeric_between(b@, i as int, end as int),
            dots == dots_between(b@, i as int, end as int),
            dots <= end - i,
        decreases i - start,
    {
        i = i - 1;
        let c = b[i];
        numeric = numeric && ((c >= 0x30 && c <= 0x39) || c == DOT);
        if c == DOT {
            dots = dots + 1;
        }
    }
    if !numeric {
        Shape::Complex
    } else if dots == 2 {
        Shape::Ideal
    } else {
        Shape::General
    }
}

proof fn lemma_numeric_bytes(b: Seq<u8>, i: int, e: int, k: int)
    requires
        numeric_between(b, i, e),
        i <= k < e,
    ensures
        is_digit(b[k]) || b[k] == DOT,
    decreases k - i,
{
    if i < k {
        lemma_numeric_bytes(b, i + 1, e, k);
    }
}

/// A match that holds a letter or a hyphen, which only a pre-release or
/// build part can bring, is Complex.
pub proof fn lemma_letter_makes_complex(b: Seq<u8>, start: int, end: int, k: int)
    requires
        version_span(b) == Some((start, end)),
        start <= k < end,
        is_letter_or_hyphen(b[k]),
    ensures
        extracted_shape(b) == Some(Shape::Complex),
{
    if numeric_between(b, start, end) {
        lemma_numeric_bytes(b, start, end, k);
    }
}

proof fn lemma_split(b: Seq<u8>, i: int, k: int, e: int)
    requires
        i <= k <= e,
    ensures
        numeric_between(b, i, e) == (numeric_between(b, i, k) && numeric_between(b, k, e)),
        dots_between(b, i, e) == dots_between(b, i, k) + dots_between(b, k, e),
    decreases k - i,
{
    if i < k {
        lemma_split(b, i + 1, k, e);
    }
}

proof fn lemma_digit_run(b: Seq<u8>, i: int, e: int)
    requires
        forall|k: int| i <= k < e ==> is_digit(#[trigger] b[k]),
    ensures
        numeric_between(b, i, e),
        dots_between(b, i, e) == 0,
    decreases e - i,
{
    if i < e {
        lemma_digit_run(b, i + 1, e);
    }
}

proof fn lemma_number_region(b: Seq<u8>, x: Seq<u8>, i: int)
    requires
        is_number_text(x),
        0 <= i,
        i + x.len() <= b.len(),
        b.subrange(i, i + x.len()) == x,
    ensures
        numeric_between(b, i, i + x.len()),
        dots_between(b, i, i + x.len()) == 0,
{
    assert forall|k: int| i <= k < i + x.len() implies is_digit(#[trigger] b[k]) by {
        assert(b[k] == x[k - i]);
    }
    lemma_digit_run(b, i, i + x.len());
}

proof fn lemma_dot_at(b: Seq<u8>, i: int)
    requires
        0 <= i < b.len(),
        b[i] == DOT,
    ensures
        numeric_between(b, i, i + 1),
        dots_between(b, i, i + 1) == 1,
{
    assert(numeric_between(b, i + 1, i + 1));
    assert(dots_between(b, i + 1, i + 1) == 0);
}

/// A label that is three numbers joined by dots is Ideal, and one that is one
/// or two numbers is General.
pub proof fn lemma_plain_numbers_shape(x: Seq<u8>, y: Seq<u8>, z: Seq<u8>)
    requires
        is_number_text(x),
        is_number_text(y),
        is_number_text(z),
    ensures
        extracted_shape(x) == Some(Shape::General),
        extracted_shape(dotted(x, y)) == Some(Shape::General),
        extracted_shape(dotted(dotted(x, y), z)) == Some(Shape::Ideal),
{
    lemma_plain_numbers_extracted_whole(x, y, z);
    let two = dotted(x, y);
    let three = dotted(two, z);
    let a = x.len() as int;
    let c = a + 1 + y.len();
    let n = three.len() as int;
    assert(x.subrange(0, a) =~= x);
    lemma_number_region(x, x, 0);
    assert(two.subrange(0, a) =~= x);
    assert(two.subrange(a + 1, c) =~= y);
    lemma_number_region(two, x, 0);
    lemma_dot_at(two, a);
    lemma_number_region(two, y, a + 1);
    lemma_split(two, 0, a, c);
    lemma_split(two, a, a + 1, c);
    assert(three.subrange(0, a) =~= x);
    assert(three.subrange(a + 1, c) =~= y);
    assert(three.subrange(c + 1, n) =~= z);
    assert(three[a] == DOT);
    assert(three[c] == DOT);
    lemma_number_region(three, x, 0);
    lemma_dot_at(three, a);
    lemma_number_region(three, y, a + 1);
    lemma_dot_at(three, c);
    lemma_number_region(three, z, c + 1);
    lemma_split(three, 0, a, n);
    lemma_split(three, a, a + 1, n);
    lemma_split(three, a + 1, c, n);
    lemma_split(three, c, c + 1, n);
}

} // verus!
