//! The version grammar, and a leftmost-first scan for it.
//!
//! ```text
//! number     := "0" | [1-9][0-9]*
//! ident      := "0" | [1-9][0-9]* | [0-9]*[a-zA-Z-][0-9a-zA-Z-]*
//! version    := number ("." number ("." number)?
//!                        ([-.] ident ("." ident)*)?
//!                        ("-+" [0-9a-zA-Z-]+ ("." [0-9a-zA-Z-]+)*)?)?
//! ```
//!
//! Each alternative and each optional part is tried in the order written, the
//! first one that matches is kept, and repetitions run as far as they can.
use vstd::prelude::*;
use vstd::utf8::*;
use vstd::string::*;

verus! {

/// `'0'`
pub const ZERO: u8 = 0x30;

/// `'9'`
pub const NINE: u8 = 0x39;

/// `'.'`
pub const DOT: u8 = 0x2e;

/// `'-'`
pub const HYPHEN: u8 = 0x2d;

/// `'+'`
pub const PLUS: u8 = 0x2b;

pub open spec fn is_digit(c: u8) -> bool {
    ZERO <= c <= NINE
}

pub open spec fn is_letter_or_hyphen(c: u8) -> bool {
    (0x41 <= c <= 0x5a) || (0x61 <= c <= 0x7a) || c == HYPHEN
}

pub open spec fn is_word(c: u8) -> bool {
    is_digit(c) || is_letter_or_hyphen(c)
}

/// The end of the run of digits that starts at `i`.
pub open spec fn digits_end(b: Seq<u8>, i: int) -> int
    decreases b.len() - i,
{
    if 0 <= i < b.len() && is_digit(b[i]) {
        digits_end(b, i + 1)
    } else {
        i
    }
}

/// The end of the run of `[0-9a-zA-Z-]` that starts at `i`.
pub open spec fn word_end(b: Seq<u8>, i: int) -> int
    decreases b.len() - i,
{
    if 0 <= i < b.len() && is_word(b[i]) {
        word_end(b, i + 1)
    } else {
        i
    }
}

/// Where a `number` that starts at `i` ends, if one starts there.
pub open spec fn number_end(b: Seq<u8>, i: int) -> Option<int> {
    if 0 <= i < b.len() && b[i] == ZERO {
        Some(i + 1)
    } else if 0 <= i < b.len() && is_digit(b[i]) {
        Some(digits_end(b, i + 1))
    } else {
        None
    }
}

/// Where an `ident` that starts at `i` ends, if one starts there.
pub open spec fn ident_end(b: Seq<u8>, i: int) -> Option<int> {
    if 0 <= i < b.len() && is_digit(b[i]) {
        number_end(b, i)
    } else if 0 <= i < b.len() && is_letter_or_hyphen(b[i]) {
        Some(word_end(b, i + 1))
    } else {
        None
    }
}

/// The end of `("." ident)*` from `i`.
pub open spec fn more_idents_end(b: Seq<u8>, i: int) -> int
    decreases b.len() - i,
{
    if 0 <= i < b.len() && b[i] == DOT {
        match ident_end(b, i + 1) {
            Some(j) => if i < j <= b.len() {
                more_idents_end(b, j)
            } else {
                i
            },
            None => i,
        }
    } else {
        i
    }
}

/// The end of `("." [0-9a-zA-Z-]+)*` from `i`.
pub open spec fn more_words_end(b: Seq<u8>, i: int) -> int
    decreases b.len() - i,
{
    if 0 <= i + 1 < b.len() && b[i] == DOT && is_word(b[i + 1]) {
        let j = word_end(b, i + 2);
        if i < j <= b.len() {
            more_words_end(b, j)
        } else {
            i
        }
    } else {
        i
    }
}

/// The end of the optional patch part `"." number` from `i`.
pub open spec fn patch_end(b: Seq<u8>, i: int) -> int {
    if 0 <= i < b.len() && b[i] == DOT {
        match number_end(b, i + 1) {
            Some(j) => j,
            None => i,
        }
    } else {
        i
    }
}

/// The end of the optional pre-release part `[-.] ident ("." ident)*` from `i`.
pub open spec fn prerelease_end(b: Seq<u8>, i: int) -> int {
    if 0 <= i < b.len() && (b[i] == HYPHEN || b[i] == DOT) {
        match ident_end(b, i + 1) {
            Some(j) => if i < j <= b.len() {
                more_idents_end(b, j)
            } else {
                i
            },
            None => i,
        }
    } else {
        i
    }
}

/// The end of the optional build part `"-+" word ("." word)*` from `i`.
pub open spec fn build_end(b: Seq<u8>, i: int) -> int {
    if 0 <= i && i + 2 < b.len() && b[i] == HYPHEN && b[i + 1] == PLUS && is_word(b[i + 2]) {
        more_words_end(b, word_end(b, i + 3))
    } else {
        i
    }
}

/// The end of everything that may follow the major number, from `i`.
pub open spec fn tail_end(b: Seq<u8>, i: int) -> int {
    if 0 <= i < b.len() && b[i] == DOT {
        match number_end(b, i + 1) {
            Some(j) => build_end(b, prerelease_end(b, patch_end(b, j))),
            None => i,
        }
    } else {
        i
    }
}

/// The end of the match that starts at the digit at `i`.
pub open spec fn match_end(b: Seq<u8>, i: int) -> int {
    match number_end(b, i) {
        Some(j) => tail_end(b, j),
        None => i,
    }
}

/// The first match at or after `i`: the first digit there starts it.
pub open spec fn span_from(b: Seq<u8>, i: int) -> Option<(int, int)>
    decreases b.len() - i,
{
    if i < 0 || i >= b.len() {
        None
    } else if is_digit(b[i]) {
        Some((i, match_end(b, i)))
    } else {
        span_from(b, i + 1)
    }
}

/// The leftmost match of the grammar in `b`, as a start and an end offset.
pub open spec fn version_span(b: Seq<u8>) -> Option<(int, int)> {
    span_from(b, 0)
}

fn digit_at(b: &[u8], i: usize) -> (r: bool)
    ensures
        r == (i < b@.len() && is_digit(b@[i as int])),
        b@.len() <= usize::MAX,
{
    i < b.len() && b[i] >= ZERO && b[i] <= NINE
}

fn word_at(b: &[u8], i: usize) -> (r: bool)
    ensures
        r == (i < b@.len() && is_word(b@[i as int])),
        b@.len() <= usize::MAX,
{
    if i < b.len() {
        let c = b[i];
        (c >= ZERO && c <= NINE) || (c >= 0x41 && c <= 0x5a) || (c >= 0x61 && c <= 0x7a) || c
            == HYPHEN
    } else {
        false
    }
}

fn byte_is(b: &[u8], i: usize, c: u8) -> (r: bool)
    ensures
        r == (i < b@.len() && b@[i as int] == c),
        b@.len() <= usize::MAX,
{
    i < b.len() && b[i] == c
}

fn scan_digits(b: &[u8], i: usize) -> (r: usize)
    requires
        i <= b@.len(),
    ensures
        r == digits_end(b@, i as int),
        i <= r <= b@.len(),
{
    let mut j: usize = i;
    while digit_at(b, j)
        invariant
            i <= j <= b@.len(),
            digits_end(b@, j as int) == digits_end(b@, i as int),
        decreases b@.len() - j,
    {
        j = j + 1;
    }
    j
}

fn scan_word(b: &[u8], i: usize) -> (r: usize)
    requires
        i <= b@.len(),
    ensures
        r == word_end(b@, i as int),
        i <= r <= b@.len(),
{
    let mut j: usize = i;
    while word_at(b, j)
        invariant
            i <= j <= b@.len(),
            word_end(b@, j as int) == word_end(b@, i as int),
        decreases b@.len() - j,
    {
        j = j + 1;
    }
    j
}

fn scan_number(b: &[u8], i: usize) -> (r: Option<usize>)
    requires
        i <= b@.len(),
    ensures
        r is Some <==> number_end(b@, i as int) is Some,
        r is Some ==> r->0 == number_end(b@, i as int)->0 && i < r->0 <= b@.len(),
{
    if byte_is(b, i, ZERO) {
        Some(i + 1)
    } else if digit_at(b, i) {
        Some(scan_digits(b, i + 1))
    } else {
        None
    }
}

fn scan_ident(b: &[u8], i: usize) -> (r: Option<usize>)
    requires
        i <= b@.len(),
    ensures
        r is Some <==> ident_end(b@, i as int) is Some,
        r is Some ==> r->0 == ident_end(b@, i as int)->0 && i < r->0 <= b@.len(),
{
    if digit_at(b, i) {
        scan_number(b, i)
    } else if word_at(b, i) {
        Some(scan_word(b, i + 1))
    } else {
        None
    }
}

fn scan_more_idents(b: &[u8], i: usize) -> (r: usize)
    requires
        i <= b@.len(),
    ensures
        r == more_idents_end(b@, i as int),
        i <= r <= b@.len(),
{
    let mut j: usize = i;
    loop
        invariant
            i <= j <= b@.len(),
            more_idents_end(b@, j as int) == more_idents_end(b@, i as int),
        decreases b@.len() - j,
    {
        if !byte_is(b, j, DOT) {
            return j;
        }
        match scan_ident(b, j + 1) {
            Some(k) => {
                j = k;
            },
            None => {
                return j;
            },
        }
    }
}

fn scan_more_words(b: &[u8], i: usize) -> (r: usize)
    requires
        i <= b@.len(),
    ensures
        r == more_words_end(b@, i as int),
        i <= r <= b@.len(),
{
    let mut j: usize = i;
    while byte_is(b, j, DOT) && word_at(b, j + 1)
        invariant
            i <= j <= b@.len(),
            more_words_end(b@, j as int) == more_words_end(b@, i as int),
        decreases b@.len() - j,
    {
        j = scan_word(b, j + 2);
    }
    j
}

fn scan_patch(b: &[u8], i: usize) -> (r: usize)
    requires
        i <= b@.len(),
    ensures
        r == patch_end(b@, i as int),
        i <= r <= b@.len(),
{
    if byte_is(b, i, DOT) {
        match scan_number(b, i + 1) {
            Some(j) => j,
            None => i,
        }
    } else {
        i
    }
}

fn scan_prerelease(b: &[u8], i: usize) -> (r: usize)
    requires
        i <= b@.len(),
    ensures
        r == prerelease_end(b@, i as int),
        i <= r <= b@.len(),
{
    if byte_is(b, i, HYPHEN) || byte_is(b, i, DOT) {
        match scan_ident(b, i + 1) {
            Some(j) => scan_more_idents(b, j),
            None => i,
        }
    } else {
        i
    }
}

fn scan_build(b: &[u8], i: usize) -> (r: usize)
    requires
        i <= b@.len(),
    ensures
        r == build_end(b@, i as int),
        i <= r <= b@.len(),
{
    if byte_is(b, i, HYPHEN) && byte_is(b, i + 1, PLUS) && word_at(b, i + 2) {
        scan_more_words(b, scan_word(b, i + 3))
    } else {
        i
    }
}

fn scan_tail(b: &[u8], i: usize) -> (r: usize)
    requires
        i <= b@.len(),
    ensures
        r == tail_end(b@, i as int),
        i <= r <= b@.len(),
{
    if byte_is(b, i, DOT) {
        match scan_number(b, i + 1) {
            Some(j) => scan_build(b, scan_prerelease(b, scan_patch(b, j))),
            None => i,
        }
    } else {
        i
    }
}

/// Finds the leftmost match of the version grammar in `b`.
pub fn find_version_bytes(b: &[u8]) -> (r: Option<(usize, usize)>)
    ensures
        match r {
            Some((start, end)) => version_span(b@) == Some((start as int, end as int)) && start
                < end <= b@.len(),
            None => version_span(b@) is None,
        },
{
    let mut i: usize = 0;
    while i < b.len()
        invariant
            i <= b@.len(),
            span_from(b@, i as int) == version_span(b@),
        decreases b@.len() - i,
    {
        if digit_at(b, i) {
            let j = match scan_number(b, i) {
                Some(j) => scan_tail(b, j),
                None => i,
            };
            return Some((i, j));
        }
        i = i + 1;
    }
    None
}

/// The characters of the leftmost match in the label whose UTF-8 bytes are `b`.
pub open spec fn extracted_text(b: Seq<u8>) -> Option<Seq<char>> {
    match version_span(b) {
        Some((start, end)) => Some(decode_utf8(b.subrange(start, end))),
        None => None,
    }
}

proof fn lemma_boundary_after_ascii(b: Seq<u8>, i: int)
    requires
        valid_utf8(b),
        0 < i <= b.len(),
        is_char_boundary(b, i - 1),
        b[i - 1] <= 0x7f,
    ensures
        is_char_boundary(b, i),
    decreases b.len(),
{
    reveal_with_fuel(is_char_boundary, 2);
    if i > 1 {
        let l = length_of_first_scalar(b);
        let rest = pop_first_scalar(b);
        assert(rest[i - 1 - l] == b[i - 1]);
        lemma_boundary_after_ascii(rest, i - l);
    }
}

proof fn lemma_ascii_boundary(b: Seq<u8>, i: int)
    requires
        valid_utf8(b),
        0 < i <= b.len(),
        b[i - 1] <= 0x7f,
    ensures
        is_char_boundary(b, i),
{
    is_char_boundary_iff_not_is_continuation_byte(b, i - 1);
    lemma_boundary_after_ascii(b, i);
}

pub open spec fn ascii_between(b: Seq<u8>, i: int, j: int) -> bool {
    forall|k: int| i <= k < j ==> #[trigger] b[k] <= 0x7f
}

proof fn lemma_digits_ascii(b: Seq<u8>, i: int)
    requires
        0 <= i,
    ensures
        i <= digits_end(b, i),
        digits_end(b, i) <= b.len() || digits_end(b, i) == i,
        ascii_between(b, i, digits_end(b, i)),
    decreases b.len() - i,
{
    if 0 <= i < b.len() && is_digit(b[i]) {
        lemma_digits_ascii(b, i + 1);
    }
}

proof fn lemma_word_ascii(b: Seq<u8>, i: int)
    requires
        0 <= i,
    ensures
        i <= word_end(b, i),
        word_end(b, i) <= b.len() || word_end(b, i) == i,
        ascii_between(b, i, word_end(b, i)),
    decreases b.len() - i,
{
    if 0 <= i < b.len() && is_word(b[i]) {
        lemma_word_ascii(b, i + 1);
    }
}

proof fn lemma_ident_ascii(b: Seq<u8>, i: int)
    requires
        0 <= i,
    ensures
        number_end(b, i) is Some ==> i <= number_end(b, i)->0 <= b.len() && ascii_between(
            b,
            i,
            number_end(b, i)->0,
        ),
        ident_end(b, i) is Some ==> i <= ident_end(b, i)->0 <= b.len() && ascii_between(
            b,
            i,
            ident_end(b, i)->0,
        ),
{
    lemma_digits_ascii(b, i + 1);
    lemma_word_ascii(b, i + 1);
}

proof fn lemma_more_idents_ascii(b: Seq<u8>, i: int)
    requires
        0 <= i,
    ensures
        i <= more_idents_end(b, i),
        more_idents_end(b, i) <= b.len() || more_idents_end(b, i) == i,
        ascii_between(b, i, more_idents_end(b, i)),
    decreases b.len() - i,
{
    if 0 <= i < b.len() && b[i] == DOT {
        lemma_ident_ascii(b, i + 1);
        if let Some(j) = ident_end(b, i + 1) {
            if i < j <= b.len() {
                lemma_more_idents_ascii(b, j);
            }
        }
    }
}

proof fn lemma_more_words_ascii(b: Seq<u8>, i: int)
    requires
        0 <= i,
    ensures
        i <= more_words_end(b, i),
        more_words_end(b, i) <= b.len() || more_words_end(b, i) == i,
        ascii_between(b, i, more_words_end(b, i)),
    decreases b.len() - i,
{
    if 0 <= i + 1 < b.len() && b[i] == DOT && is_word(b[i + 1]) {
        lemma_word_ascii(b, i + 2);
        let j = word_end(b, i + 2);
        if i < j <= b.len() {
            lemma_more_words_ascii(b, j);
        }
    }
}

proof fn lemma_tail_ascii(b: Seq<u8>, i: int)
    requires
        0 <= i,
    ensures
        i <= tail_end(b, i),
        tail_end(b, i) <= b.len() || tail_end(b, i) == i,
        ascii_between(b, i, tail_end(b, i)),
{
    if 0 <= i < b.len() && b[i] == DOT {
        lemma_ident_ascii(b, i + 1);
        if let Some(j) = number_end(b, i + 1) {
            lemma_ident_ascii(b, j + 1);
            let p = patch_end(b, j);
            lemma_ident_ascii(b, p + 1);
            if let Some(q) = ident_end(b, p + 1) {
                lemma_more_idents_ascii(b, q);
            }
            let r = prerelease_end(b, p);
            lemma_word_ascii(b, r + 3);
            lemma_more_words_ascii(b, word_end(b, r + 3));
        }
    }
}

proof fn lemma_span_ascii(b: Seq<u8>, i: int)
    requires
        0 <= i,
        span_from(b, i) is Some,
    ensures
        match span_from(b, i) {
            Some((start, end)) => ascii_between(b, start, end) && 0 <= start <= end <= b.len(),
            None => true,
        },
    decreases b.len() - i,
{
    if i < b.len() {
        if is_digit(b[i]) {
            lemma_ident_ascii(b, i);
            lemma_tail_ascii(b, number_end(b, i)->0);
        } else {
            lemma_span_ascii(b, i + 1);
        }
    }
}

proof fn lemma_match_is_ascii(b: Seq<u8>, start: int, end: int, k: int)
    requires
        version_span(b) == Some((start, end)),
        start <= k < end <= b.len(),
    ensures
        b[k] <= 0x7f,
{
    lemma_span_ascii(b, 0);
}

proof fn lemma_no_digit_from(b: Seq<u8>, i: int)
    requires
        0 <= i,
        forall|k: int| 0 <= k < b.len() ==> !is_digit(#[trigger] b[k]),
    ensures
        span_from(b, i) is None,
    decreases b.len() - i,
{
    if i < b.len() {
        lemma_no_digit_from(b, i + 1);
    }
}

/// A label without an ASCII digit holds no version.
pub proof fn lemma_no_digit_no_version(b: Seq<u8>)
    requires
        forall|k: int| 0 <= k < b.len() ==> !is_digit(#[trigger] b[k]),
    ensures
        version_span(b) is None,
        extracted_text(b) is None,
{
    lemma_no_digit_from(b, 0);
}

proof fn lemma_shift_digits(p: Seq<u8>, s: Seq<u8>, i: int)
    requires
        0 <= i,
    ensures
        digits_end(p + s, i + p.len()) == digits_end(s, i) + p.len(),
    decreases s.len() - i,
{
    let b = p + s;
    let d = p.len() as int;
    if i < s.len() {
        assert(b[i + d] == s[i]);
        lemma_shift_digits(p, s, i + 1);
    }
}

proof fn lemma_shift_word(p: Seq<u8>, s: Seq<u8>, i: int)
    requires
        0 <= i,
    ensures
        word_end(p + s, i + p.len()) == word_end(s, i) + p.len(),
    decreases s.len() - i,
{
    let b = p + s;
    let d = p.len() as int;
    if i < s.len() {
        assert(b[i + d] == s[i]);
        lemma_shift_word(p, s, i + 1);
    }
}

pub open spec fn shifted(r: Option<int>, d: int) -> Option<int> {
    match r {
        Some(j) => Some(j + d),
        None => None,
    }
}

proof fn lemma_shift_ident(p: Seq<u8>, s: Seq<u8>, i: int)
    requires
        0 <= i,
    ensures
        number_end(p + s, i + p.len()) == shifted(number_end(s, i), p.len() as int),
        ident_end(p + s, i + p.len()) == shifted(ident_end(s, i), p.len() as int),
{
    let b = p + s;
    let d = p.len() as int;
    if i < s.len() {
        assert(b[i + d] == s[i]);
    }
    lemma_shift_digits(p, s, i + 1);
    lemma_shift_word(p, s, i + 1);
}

proof fn lemma_shift_more_idents(p: Seq<u8>, s: Seq<u8>, i: int)
    requires
        0 <= i,
    ensures
        more_idents_end(p + s, i + p.len()) == more_idents_end(s, i) + p.len(),
    decreases s.len() - i,
{
    let b = p + s;
    let d = p.len() as int;
    if i < s.len() {
        assert(b[i + d] == s[i]);
        lemma_shift_ident(p, s, i + 1);
        if let Some(j) = ident_end(s, i + 1) {
            if i < j <= s.len() {
                lemma_shift_more_idents(p, s, j);
            }
        }
    }
}

proof fn lemma_shift_more_words(p: Seq<u8>, s: Seq<u8>, i: int)
    requires
        0 <= i,
    ensures
        more_words_end(p + s, i + p.len()) == more_words_end(s, i) + p.len(),
    decreases s.len() - i,
{
    let b = p + s;
    let d = p.len() as int;
    if i + 1 < s.len() {
        assert(b[i + d] == s[i]);
        assert(b[i + 1 + d] == s[i + 1]);
        lemma_shift_word(p, s, i + 2);
        let j = word_end(s, i + 2);
        if i < j <= s.len() {
            lemma_shift_more_words(p, s, j);
        }
    }
}

#[verifier::rlimit(40)]
proof fn lemma_shift_match(p: Seq<u8>, s: Seq<u8>, i: int)
    requires
        0 <= i,
    ensures
        match_end(p + s, i + p.len()) == match_end(s, i) + p.len(),
{
    let b = p + s;
    let d = p.len() as int;
    lemma_shift_ident(p, s, i);
    lemma_ident_ascii(s, i);
    if let Some(m) = number_end(s, i) {
        lemma_ident_ascii(s, m + 1);
        if m < s.len() {
            assert(b[m + d] == s[m]);
        }
        lemma_shift_ident(p, s, m + 1);
        if let Some(j) = number_end(s, m + 1) {
            if j < s.len() {
                assert(b[j + d] == s[j]);
            }
            lemma_shift_ident(p, s, j + 1);
            lemma_ident_ascii(s, j + 1);
            let q = patch_end(s, j);
            lemma_ident_ascii(s, q + 1);
            if q < s.len() {
                assert(b[q + d] == s[q]);
            }
            lemma_shift_ident(p, s, q + 1);
            if let Some(t) = ident_end(s, q + 1) {
                lemma_shift_more_idents(p, s, t);
                lemma_more_idents_ascii(s, t);
            }
            let r = prerelease_end(s, q);
            if r + 2 < s.len() {
                assert(b[r + d] == s[r]);
                assert(b[r + 1 + d] == s[r + 1]);
                assert(b[r + 2 + d] == s[r + 2]);
            }
            lemma_shift_word(p, s, r + 3);
            lemma_word_ascii(s, r + 3);
            lemma_shift_more_words(p, s, word_end(s, r + 3));
        }
    }
}

proof fn lemma_shift_span(p: Seq<u8>, s: Seq<u8>, i: int)
    requires
        0 <= i,
    ensures
        span_from(p + s, i + p.len()) == match span_from(s, i) {
            Some((start, end)) => Some((start + p.len(), end + p.len())),
            None => None,
        },
    decreases s.len() - i,
{
    let b = p + s;
    let d = p.len() as int;
    if i < s.len() {
        assert(b[i + d] == s[i]);
        if is_digit(s[i]) {
            lemma_shift_match(p, s, i);
        } else {
            lemma_shift_span(p, s, i + 1);
        }
    }
}

proof fn lemma_skip_prefix(p: Seq<u8>, s: Seq<u8>, k: int)
    requires
        0 <= k <= p.len(),
        forall|j: int| 0 <= j < p.len() ==> !is_digit(#[trigger] p[j]),
    ensures
        span_from(p + s, k) == span_from(p + s, p.len() as int),
    decreases p.len() - k,
{
    if k < p.len() {
        assert((p + s)[k] == p[k]);
        lemma_skip_prefix(p, s, k + 1);
    }
}

/// Text before the version that holds no ASCII digit changes nothing of what
/// is extracted: the match is the same, only moved by the prefix's length.
pub proof fn lemma_prefix_without_digits(p: Seq<u8>, s: Seq<u8>)
    requires
        forall|j: int| 0 <= j < p.len() ==> !is_digit(#[trigger] p[j]),
    ensures
        version_span(p + s) == match version_span(s) {
            Some((start, end)) => Some((start + p.len(), end + p.len())),
            None => None,
        },
        extracted_text(p + s) == extracted_text(s),
{
    lemma_skip_prefix(p, s, 0);
    lemma_shift_span(p, s, 0);
    if let Some((start, end)) = version_span(s) {
        lemma_span_ascii(s, 0);
        assert((p + s).subrange(start + p.len(), end + p.len()) =~= s.subrange(start, end));
    }
}

/// `r` is build metadata that can follow `a` without joining its match: it
/// starts with `+`, and `a` does not end with `-`.
pub open spec fn is_plus_suffix(a: Seq<u8>, r: Seq<u8>) -> bool {
    r.len() > 0 && r[0] == PLUS && (a.len() > 0 ==> a[a.len() - 1] != HYPHEN)
}

proof fn lemma_suffix_digits(a: Seq<u8>, r: Seq<u8>, i: int)
    requires
        is_plus_suffix(a, r),
        0 <= i <= a.len(),
    ensures
        digits_end(a + r, i) == digits_end(a, i),
        word_end(a + r, i) == word_end(a, i),
    decreases a.len() - i,
{
    let b = a + r;
    if i < a.len() {
        assert(b[i] == a[i]);
        lemma_suffix_digits(a, r, i + 1);
    } else {
        assert(b[i] == PLUS);
    }
}

proof fn lemma_suffix_ident(a: Seq<u8>, r: Seq<u8>, i: int)
    requires
        is_plus_suffix(a, r),
        0 <= i <= a.len(),
    ensures
        number_end(a + r, i) == number_end(a, i),
        ident_end(a + r, i) == ident_end(a, i),
{
    let b = a + r;
    if i < a.len() {
        assert(b[i] == a[i]);
        lemma_suffix_digits(a, r, i + 1);
    } else {
        assert(b[i] == PLUS);
    }
}

proof fn lemma_suffix_more_idents(a: Seq<u8>, r: Seq<u8>, i: int)
    requires
        is_plus_suffix(a, r),
        0 <= i <= a.len(),
    ensures
        more_idents_end(a + r, i) == more_idents_end(a, i),
    decreases a.len() - i,
{
    let b = a + r;
    if i < a.len() {
        assert(b[i] == a[i]);
        if a[i] == DOT {
            lemma_suffix_ident(a, r, i + 1);
            lemma_ident_ascii(a, i + 1);
            if let Some(j) = ident_end(a, i + 1) {
                lemma_suffix_more_idents(a, r, j);
            }
        }
    } else {
        assert(b[i] == PLUS);
    }
}

proof fn lemma_suffix_more_words(a: Seq<u8>, r: Seq<u8>, i: int)
    requires
        is_plus_suffix(a, r),
        0 <= i <= a.len(),
    ensures
        more_words_end(a + r, i) == more_words_end(a, i),
    decreases a.len() - i,
{
    let b = a + r;
    if i + 1 < a.len() {
        assert(b[i] == a[i]);
        assert(b[i + 1] == a[i + 1]);
        if a[i] == DOT && is_word(a[i + 1]) {
            lemma_suffix_digits(a, r, i + 2);
            lemma_word_ascii(a, i + 2);
            lemma_suffix_more_words(a, r, word_end(a, i + 2));
        }
    } else if i + 1 == a.len() {
        assert(b[i + 1] == PLUS);
    } else {
        assert(b[i] == PLUS);
    }
}

proof fn lemma_suffix_build(a: Seq<u8>, r: Seq<u8>, i: int)
    requires
        is_plus_suffix(a, r),
        0 <= i <= a.len(),
    ensures
        build_end(a + r, i) == build_end(a, i),
{
    let b = a + r;
    if i + 2 < a.len() {
        assert(b[i] == a[i]);
        assert(b[i + 1] == a[i + 1]);
        assert(b[i + 2] == a[i + 2]);
        lemma_suffix_digits(a, r, i + 3);
        lemma_word_ascii(a, i + 3);
        lemma_suffix_more_words(a, r, word_end(a, i + 3));
    } else if i + 2 == a.len() {
        assert(b[i + 2] == PLUS);
    } else if i + 1 == a.len() {
        assert(b[i] == a[i]);
    } else {
        assert(b[i] == PLUS);
    }
}

proof fn lemma_suffix_match(a: Seq<u8>, r: Seq<u8>, i: int)
    requires
        is_plus_suffix(a, r),
        0 <= i <= a.len(),
    ensures
        match_end(a + r, i) == match_end(a, i),
{
    let b = a + r;
    lemma_suffix_ident(a, r, i);
    lemma_ident_ascii(a, i);
    if let Some(m) = number_end(a, i) {
        if m < a.len() {
            assert(b[m] == a[m]);
            lemma_suffix_ident(a, r, m + 1);
            lemma_ident_ascii(a, m + 1);
            if let Some(j) = number_end(a, m + 1) {
                if j < a.len() {
                    assert(b[j] == a[j]);
                    lemma_suffix_ident(a, r, j + 1);
                    lemma_ident_ascii(a, j + 1);
                } else {
                    assert(b[j] == PLUS);
                }
                let q = patch_end(a, j);
                if q < a.len() {
                    assert(b[q] == a[q]);
                    lemma_suffix_ident(a, r, q + 1);
                    lemma_ident_ascii(a, q + 1);
                    if let Some(t) = ident_end(a, q + 1) {
                        lemma_suffix_more_idents(a, r, t);
                        lemma_more_idents_ascii(a, t);
                    }
                } else {
                    assert(b[q] == PLUS);
                }
                lemma_suffix_build(a, r, prerelease_end(a, q));
            }
        } else {
            assert(b[m] == PLUS);
        }
    }
}

proof fn lemma_suffix_span(a: Seq<u8>, r: Seq<u8>, i: int)
    requires
        is_plus_suffix(a, r),
        0 <= i,
        span_from(a, i) is Some,
    ensures
        span_from(a + r, i) == span_from(a, i),
    decreases a.len() - i,
{
    let b = a + r;
    if i < a.len() {
        assert(b[i] == a[i]);
        if is_digit(a[i]) {
            lemma_suffix_match(a, r, i);
        } else {
            lemma_suffix_span(a, r, i + 1);
        }
    }
}

/// Build metadata written after `+` never changes what is extracted from a
/// label that holds a version, unless the label ends with `-` and the two
/// form the build marker `-+`.
pub proof fn lemma_plus_suffix_ignored(a: Seq<u8>, r: Seq<u8>)
    requires
        version_span(a) is Some,
        is_plus_suffix(a, r),
    ensures
        version_span(a + r) == version_span(a),
        extracted_text(a + r) == extracted_text(a),
{
    lemma_suffix_span(a, r, 0);
    lemma_span_ascii(a, 0);
    if let Some((start, end)) = version_span(a) {
        assert((a + r).subrange(start, end) =~= a.subrange(start, end));
    }
}

/// `x` is a number without a leading zero: `0`, or a non-zero digit followed
/// by digits.
pub open spec fn is_number_text(x: Seq<u8>) -> bool {
    x.len() > 0 && (forall|k: int| 0 <= k < x.len() ==> is_digit(#[trigger] x[k])) && (x[0] == ZERO
        ==> x.len() == 1)
}

proof fn lemma_digits_run(b: Seq<u8>, i: int, k: int)
    requires
        0 <= i <= k <= b.len(),
        forall|j: int| i <= j < k ==> is_digit(#[trigger] b[j]),
        k == b.len() || !is_digit(b[k]),
    ensures
        digits_end(b, i) == k,
    decreases k - i,
{
    if i < k {
        lemma_digits_run(b, i + 1, k);
    }
}

proof fn lemma_number_at(b: Seq<u8>, x: Seq<u8>, i: int)
    requires
        is_number_text(x),
        0 <= i,
        i + x.len() <= b.len(),
        b.subrange(i, i + x.len()) == x,
        i + x.len() == b.len() || !is_digit(b[i + x.len()]),
    ensures
        number_end(b, i) == Some(i + x.len()),
{
    assert(b[i] == x[0]);
    assert forall|j: int| i + 1 <= j < i + x.len() implies is_digit(#[trigger] b[j]) by {
        assert(b[j] == x[j - i]);
    }
    lemma_digits_run(b, i + 1, i + x.len());
}

pub open spec fn dotted(x: Seq<u8>, y: Seq<u8>) -> Seq<u8> {
    x + seq![DOT] + y
}

/// A label that is one number, or two or three numbers joined by dots, is
/// extracted whole.
pub proof fn lemma_plain_numbers_extracted_whole(x: Seq<u8>, y: Seq<u8>, z: Seq<u8>)
    requires
        is_number_text(x),
        is_number_text(y),
        is_number_text(z),
    ensures
        version_span(x) == Some((0int, x.len() as int)),
        version_span(dotted(x, y)) == Some((0int, dotted(x, y).len() as int)),
        version_span(dotted(dotted(x, y), z)) == Some((0int, dotted(dotted(x, y), z).len() as int)),
{
    let one = x;
    let two = dotted(x, y);
    let three = dotted(two, z);
    let a = x.len() as int;
    let c = a + 1 + y.len();
    assert(one.subrange(0, a) =~= x);
    lemma_number_at(one, x, 0);
    assert(two.subrange(0, a) =~= x);
    assert(two[a] == DOT);
    lemma_number_at(two, x, 0);
    assert(two.subrange(a + 1, c) =~= y);
    lemma_number_at(two, y, a + 1);
    assert(three.subrange(0, a) =~= x);
    assert(three[a] == DOT);
    lemma_number_at(three, x, 0);
    assert(three.subrange(a + 1, c) =~= y);
    assert(three[c] == DOT);
    lemma_number_at(three, y, a + 1);
    assert(three.subrange(c + 1, three.len() as int) =~= z);
    lemma_number_at(three, z, c + 1);
    assert(is_digit(one[0]));
    assert(is_digit(two[0]));
    assert(is_digit(three[0]));
}

/// The leftmost match of the version grammar in `label`, as byte offsets.
pub fn find_version(label: &str) -> (r: Option<(usize, usize)>)
    ensures
        match r {
            Some((start, end)) => version_span(label.spec_bytes()) == Some((start as int, end as int))
                && start < end <= label.spec_bytes().len(),
            None => version_span(label.spec_bytes()) is None,
        },
{
    find_version_bytes(label.as_bytes())
}

/// The first `+` in `[i, e)` of `b`, or `e` if there is none.
pub open spec fn plus_from(b: Seq<u8>, i: int, e: int) -> int
    decreases e - i,
{
    if i >= e {
        e
    } else if b[i] == PLUS {
        i
    } else {
        plus_from(b, i + 1, e)
    }
}

/// Where the match `[start, end)` ends once a build part `-+...` is cut off.
pub open spec fn core_end(b: Seq<u8>, start: int, end: int) -> int {
    if start + 1 < plus_from(b, start, end) < end {
        plus_from(b, start, end) - 1
    } else {
        end
    }
}

/// The characters of the leftmost match without its build part.
pub open spec fn extracted_core(b: Seq<u8>) -> Option<Seq<char>> {
    match version_span(b) {
        Some((start, end)) => Some(decode_utf8(b.subrange(start, core_end(b, start, end)))),
        None => None,
    }
}

fn find_plus(b: &[u8], start: usize, end: usize) -> (r: usize)
    requires
        start <= end <= b@.len(),
    ensures
        r == plus_from(b@, start as int, end as int),
        start <= r <= end,
{
    let mut i: usize = start;
    while i < end && b[i] != PLUS
        invariant
            start <= i <= end <= b@.len(),
            plus_from(b@, i as int, end as int) == plus_from(b@, start as int, end as int),
        decreases end - i,
    {
        i = i + 1;
    }
    i
}

/// The part of `label` that the leftmost match covers, without its build part.
pub fn extract_core_text(label: &str) -> (r: Option<&str>)
    ensures
        match r {
            Some(t) => extracted_core(label.spec_bytes()) == Some(t@),
            None => extracted_core(label.spec_bytes()) is None,
        },
{
    let b = label.as_bytes();
    match find_version_bytes(b) {
        Some((start, full_end)) => {
            proof {
                lemma_span_digit(label.spec_bytes(), 0);
                assert(plus_from(b@, start as int, full_end as int) == plus_from(
                    b@,
                    start + 1,
                    full_end as int,
                ));
            }
            let plus = find_plus(b, start + 1, full_end);
            let end = if start + 1 < plus && plus < full_end {
                plus - 1
            } else {
                full_end
            };
            proof {
                let sb = label.spec_bytes();
                encode_utf8_valid_utf8(label@);
                lemma_match_is_ascii(sb, start as int, full_end as int, start as int);
                lemma_match_is_ascii(sb, start as int, full_end as int, end - 1);
                is_char_boundary_iff_not_is_continuation_byte(sb, start as int);
                lemma_ascii_boundary(sb, end as int);
            }
            let (_, rest) = label.split_at(start);
            proof {
                let sb = label.spec_bytes();
                let rb = rest.spec_bytes();
                encode_utf8_valid_utf8(rest@);
                assert(rb[end - start - 1] == sb[end - 1]);
                lemma_ascii_boundary(rb, end - start);
            }
            let (piece, _) = rest.split_at(end - start);
            proof {
                encode_utf8_decode_utf8(piece@);
                assert(piece.spec_bytes() =~= label.spec_bytes().subrange(start as int, end as int));
            }
            Some(piece)
        },
        None => None,
    }
}

proof fn lemma_span_digit(b: Seq<u8>, i: int)
    requires
        0 <= i,
        span_from(b, i) is Some,
    ensures
        match span_from(b, i) {
            Some((start, end)) => is_digit(b[start]),
            None => true,
        },
    decreases b.len() - i,
{
    if i < b.len() && !is_digit(b[i]) {
        lemma_span_digit(b, i + 1);
    }
}

/// The part of `label` that the leftmost match of the version grammar covers.
pub fn extract_text(label: &str) -> (r: Option<&str>)
    ensures
        match r {
            Some(t) => extracted_text(label.spec_bytes()) == Some(t@),
            None => extracted_text(label.spec_bytes()) is None,
        },
{
    let b = label.as_bytes();
    match find_version_bytes(b) {
        Some((start, end)) => {
            proof {
                let sb = label.spec_bytes();
                encode_utf8_valid_utf8(label@);
                lemma_match_is_ascii(sb, start as int, end as int, start as int);
                lemma_match_is_ascii(sb, start as int, end as int, end - 1);
                is_char_boundary_iff_not_is_continuation_byte(sb, start as int);
                lemma_ascii_boundary(sb, end as int);
            }
            let (_, rest) = label.split_at(start);
            proof {
                let sb = label.spec_bytes();
                let rb = rest.spec_bytes();
                encode_utf8_valid_utf8(rest@);
                assert(rb[end - start - 1] == sb[end - 1]);
                lemma_ascii_boundary(rb, end - start);
            }
            let (piece, _) = rest.split_at(end - start);
            proof {
                encode_utf8_decode_utf8(piece@);
                assert(piece.spec_bytes() =~= label.spec_bytes().subrange(start as int, end as int));
            }
            Some(piece)
        },
        None => None,
    }
}

} // verus!
