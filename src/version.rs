//! A parsed version value, with its shape, its components, its order and its
//! hash.
//!
//! Parsing, ordering, rendering and hashing come from the `versions` crate's
//! `Versioning`. Each of them depends on the parsed text alone, so the
//! contracts here speak of named functions of that text.
use std::collections::hash_map::DefaultHasher;
use std::hash::Hash;
use std::hash::Hasher;
use core::cmp::Ordering;
use versions::Versioning;
use vstd::prelude::*;
use vstd::string::*;
use crate::shape::{classify, extracted_shape, Shape};
use crate::grammar::{find_version, extract_text, extract_core_text, extracted_core, extracted_text, is_plus_suffix, lemma_plus_suffix_ignored, version_span};

verus! {

#[verifier::external_type_specification]
#[verifier::external_body]
pub struct ExVersioning(Versioning);

/// The six relational comparisons.
#[derive(Clone, Copy, Debug, PartialEq, Eq, Structural)]
pub enum CompareOp {
    Lt,
    Le,
    Eq,
    Ne,
    Gt,
    Ge,
}

/// Whether `Versioning::new` accepts the text.
pub uninterp spec fn accepted_text(t: Seq<char>) -> bool;

/// `Versioning::nth` on the value parsed from the text.
pub uninterp spec fn parsed_nth(t: Seq<char>, n: usize) -> Option<u32>;

/// `Ord::cmp` on the values parsed from two texts.
pub uninterp spec fn parsed_order(a: Seq<char>, b: Seq<char>) -> Ordering;

/// The `DefaultHasher` hash of the value parsed from the text.
pub uninterp spec fn parsed_hash(t: Seq<char>) -> u64;

/// The `Display` rendering of the value parsed from the text.
pub uninterp spec fn parsed_display(t: Seq<char>) -> Seq<char>;

/// The `Debug` rendering of the value parsed from the text.
pub uninterp spec fn parsed_debug(t: Seq<char>) -> Seq<char>;

/// A version value: the text it was parsed from, and the parse of that text.
pub struct RsVersion {
    inner: Versioning,
    text: Ghost<Seq<char>>,
    shape: Shape,
    key: u64,
}

impl View for RsVersion {
    type V = Seq<char>;

    /// The text that the value was parsed from.
    closed spec fn view(&self) -> Seq<char> {
        self.text@
    }
}

/// Relies on `versions::Versioning::new`: whether the text parses depends on
/// the text alone. The value is built here, from the text and its parse
/// together, and nowhere else.
#[verifier::external_body]
fn parsed_value(s: &str, shape: Shape, key: u64) -> (r: Option<RsVersion>)
    ensures
        r is Some <==> accepted_text(s@),
        r is Some ==> r->0@ == s@ && r->0.spec_shape() == shape && r->0.spec_key() == key,
{
    Versioning::new(s).map(|inner| RsVersion { inner, text: Ghost(s@), shape, key })
}

/// Relies on `versions::Versioning::nth`, which has no component past the
/// patch number for an ideal version.
#[verifier::external_body]
fn versioning_nth(v: &RsVersion, n: usize) -> (r: Option<u32>)
    ensures
        r == parsed_nth(v@, n),
{
    v.inner.nth(n)
}

/// Relies on `Ord::cmp` of `versions::Versioning`.
#[verifier::external_body]
fn versioning_cmp(a: &RsVersion, b: &RsVersion) -> (r: Ordering)
    ensures
        r == parsed_order(a@, b@),
{
    a.inner.cmp(&b.inner)
}

/// Relies on the derived `Hash` of `versions::Versioning`, fed to a fresh
/// `DefaultHasher`.
#[verifier::external_body]
fn versioning_hash(v: &RsVersion) -> (r: u64)
    ensures
        r == parsed_hash(v@),
{
    let mut hasher = DefaultHasher::new();
    v.inner.hash(&mut hasher);
    hasher.finish()
}

/// Relies on `Display` of `versions::Versioning`.
#[verifier::external_body]
fn versioning_display(v: &RsVersion) -> (r: String)
    ensures
        r@ == parsed_display(v@),
{
    v.inner.to_string()
}

/// Relies on the derived `Debug` of `versions::Versioning`.
#[verifier::external_body]
fn versioning_debug(v: &RsVersion) -> (r: String)
    ensures
        r@ == parsed_debug(v@),
{
    format!("{:?}", v.inner)
}

/// Parses the leftmost version-like part of `version`.
pub fn convert_to_semver(version: &str) -> (r: Option<Versioning>)
    ensures
        r is Some <==> match extracted_text(version.spec_bytes()) {
            Some(t) => accepted_text(t),
            None => false,
        },
{
    match parse_version(version) {
        Some(v) => Some(v.inner),
        None => None,
    }
}

/// The hash of a value parsed from `text`, whose match without its build part
/// is `core`: the hash of the parse of `core` where that parses, else of
/// `text`.
pub open spec fn hash_key(core: Seq<char>, text: Seq<char>) -> u64 {
    if accepted_text(core) {
        parsed_hash(core)
    } else {
        parsed_hash(text)
    }
}

/// Finds the leftmost version-like part of `ver` and parses it.
///
/// The result is absent when no part of `ver` matches the grammar, or when
/// the part that matches does not parse.
pub fn parse_version(ver: &str) -> (r: Option<RsVersion>)
    ensures
        match extracted_text(ver.spec_bytes()) {
            Some(t) => match r {
                Some(v) => accepted_text(t) && v@ == t && extracted_shape(ver.spec_bytes()) == Some(
                    v.spec_shape(),
                ) && extracted_core(ver.spec_bytes()) is Some && v.spec_key() == hash_key(
                    extracted_core(ver.spec_bytes())->0,
                    t,
                ),
                None => !accepted_text(t),
            },
            None => r is None,
        },
{
    match find_version(ver) {
        Some((start, end)) => {
            let shape = classify(ver.as_bytes(), start, end);
            match extract_text(ver) {
                Some(t) => match parsed_value(t, shape, 0) {
                    Some(full) => {
                        let key = match extract_core_text(ver) {
                            Some(c) => match parsed_value(c, shape, 0) {
                                Some(core) => versioning_hash(&core),
                                None => versioning_hash(&full),
                            },
                            None => versioning_hash(&full),
                        };
                        let mut v = full;
                        v.key = key;
                        Some(v)
                    },
                    None => None,
                },
                None => None,
            }
        },
        None => None,
    }
}

/// Two labels that differ only in the build metadata written after a `+`
/// yield the same text to parse, so `parse_version` gives values with the same
/// view: every comparison and the hash treat them alike.
pub proof fn lemma_build_metadata_ignored(a: Seq<u8>, r1: Seq<u8>, r2: Seq<u8>)
    requires
        version_span(a) is Some,
        is_plus_suffix(a, r1),
        is_plus_suffix(a, r2),
    ensures
        extracted_text(a + r1) == extracted_text(a + r2),
        extracted_text(a + r1) is Some,
{
    lemma_plus_suffix_ignored(a, r1);
    lemma_plus_suffix_ignored(a, r2);
}

/// Whether the comparison `op` holds between two values whose order is `o`.
pub open spec fn op_holds(o: Ordering, op: CompareOp) -> bool {
    match op {
        CompareOp::Lt => o == Ordering::Less,
        CompareOp::Le => o != Ordering::Greater,
        CompareOp::Eq => o == Ordering::Equal,
        CompareOp::Ne => o != Ordering::Equal,
        CompareOp::Gt => o == Ordering::Greater,
        CompareOp::Ge => o != Ordering::Less,
    }
}

/// The six comparisons agree with one another: exactly one of less, equal and
/// greater holds, and the other three are made of those.
pub proof fn lemma_comparisons_agree(o: Ordering)
    ensures
        op_holds(o, CompareOp::Lt) as int + op_holds(o, CompareOp::Eq) as int + op_holds(
            o,
            CompareOp::Gt,
        ) as int == 1,
        op_holds(o, CompareOp::Le) == (op_holds(o, CompareOp::Lt) || op_holds(o, CompareOp::Eq)),
        op_holds(o, CompareOp::Ge) == (op_holds(o, CompareOp::Gt) || op_holds(o, CompareOp::Eq)),
        op_holds(o, CompareOp::Ne) == !op_holds(o, CompareOp::Eq),
{
}

/// Two values whose matches agree once their build parts are cut off hash
/// alike, where that shorter text parses.
pub proof fn lemma_build_part_not_hashed(core: Seq<char>, t1: Seq<char>, t2: Seq<char>)
    requires
        accepted_text(core),
    ensures
        hash_key(core, t1) == hash_key(core, t2),
{
}

/// Every value has exactly one of the three shapes.
pub proof fn lemma_exactly_one_shape(v: RsVersion)
    ensures
        (v.spec_shape() == Shape::Ideal) as int + (v.spec_shape() == Shape::General) as int + (
        v.spec_shape() == Shape::Complex) as int == 1,
{
}

impl RsVersion {
    /// The hash that `hash_value` returns.
    pub closed spec fn spec_key(&self) -> u64 {
        self.key
    }

    /// The shape of the match that the value was parsed from.
    pub closed spec fn spec_shape(&self) -> Shape {
        self.shape
    }

    /// The shape of this value.
    pub fn shape(&self) -> (r: Shape)
        ensures
            r == self.spec_shape(),
    {
        self.shape
    }

    pub fn is_ideal(&self) -> (r: bool)
        ensures
            r == (self.spec_shape() == Shape::Ideal),
    {
        self.shape() == Shape::Ideal
    }

    pub fn is_general(&self) -> (r: bool)
        ensures
            r == (self.spec_shape() == Shape::General),
    {
        self.shape() == Shape::General
    }

    pub fn is_complex(&self) -> (r: bool)
        ensures
            r == (self.spec_shape() == Shape::Complex),
    {
        self.shape() == Shape::Complex
    }

    /// The `n`-th numeric component, counting from the major number at 0.
    pub fn nth(&self, n: usize) -> (r: Option<u32>)
        ensures
            r == parsed_nth(self@, n),
    {
        versioning_nth(self, n)
    }

    /// The order of `self` relative to `other`.
    ///
    /// A missing trailing component ranks below any value of it, zero
    /// included: `1.2` is less than `1.2.0`.
    pub fn compare(&self, other: &RsVersion) -> (r: Ordering)
        ensures
            r == parsed_order(self@, other@),
    {
        versioning_cmp(self, other)
    }

    /// Whether `self` and `other` are equal: neither is less than the other.
    pub fn equals(&self, other: &RsVersion) -> (r: bool)
        ensures
            r == (parsed_order(self@, other@) == Ordering::Equal),
    {
        match self.compare(other) {
            Ordering::Equal => true,
            _ => false,
        }
    }

    /// The comparison `op` between `self` and `other`.
    pub fn richcmp(&self, other: &RsVersion, op: CompareOp) -> (r: bool)
        ensures
            r == op_holds(parsed_order(self@, other@), op),
    {
        match op {
            CompareOp::Eq => self.equals(other),
            CompareOp::Ne => !self.equals(other),
            _ => {
                let ord = self.compare(other);
                match ord {
                    Ordering::Less => op == CompareOp::Lt || op == CompareOp::Le,
                    Ordering::Equal => op == CompareOp::Le || op == CompareOp::Ge,
                    Ordering::Greater => op == CompareOp::Gt || op == CompareOp::Ge,
                }
            },
        }
    }

    /// The hash of the value, taken with the build part of its text cut off,
    /// so that values that differ only in build metadata hash alike.
    ///
    /// The hash comes from the derived `Hash` of `versions::Versioning`, which
    /// follows that type's structural equality, not its order. Two values that
    /// the order calls equal but that differ in more than the build part, such
    /// as `1.2.r1.5` and `1.2.r1x.5`, may hash differently.
    pub fn hash_value(&self) -> (r: u64)
        ensures
            r == self.spec_key(),
    {
        self.key
    }

    /// The canonical rendering of the parsed value.
    pub fn display(&self) -> (r: String)
        ensures
            r@ == parsed_display(self@),
    {
        versioning_display(self)
    }

    /// A rendering of the parsed value's internal structure.
    pub fn debug_repr(&self) -> (r: String)
        ensures
            r@ == parsed_debug(self@),
    {
        versioning_debug(self)
    }
}

} // verus!
