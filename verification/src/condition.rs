//! The predicate engine: stateless, immutable query conditions evaluated
//! against a candidate value's fields.

use crate::text::has_substring;
use crate::text::str_contains;
use crate::value::get_field_spec;
use crate::value::veq;
use crate::value::Val;
use crate::value::Value;
use vstd::prelude::*;

verus! {

/// A predicate over a candidate value's fields, built per query and never
/// persisted.
pub enum Condition {
    /// The field is present and structurally equal to the expected value.
    Equals(String, Value),
    /// The field resolves to an integer strictly above the threshold.
    GreaterThan(String, i64),
    /// The field resolves to an integer strictly below the threshold.
    LessThan(String, i64),
    /// The field resolves to a string containing the given substring.
    Contains(String, String),
    /// The field resolves to an integer inside the inclusive range.
    Between(String, i64, i64),
}

/// The mathematical model of a condition.
pub enum Cond {
    CEquals(Seq<char>, Val),
    CGreaterThan(Seq<char>, int),
    CLessThan(Seq<char>, int),
    CContains(Seq<char>, Seq<char>),
    CBetween(Seq<char>, int, int),
}

impl View for Condition {
    type V = Cond;

    open spec fn view(&self) -> Cond {
        match self {
            Condition::Equals(f, v) => Cond::CEquals(f@, v@),
            Condition::GreaterThan(f, t) => Cond::CGreaterThan(f@, *t as int),
            Condition::LessThan(f, t) => Cond::CLessThan(f@, *t as int),
            Condition::Contains(f, s) => Cond::CContains(f@, s@),
            Condition::Between(f, lo, hi) => Cond::CBetween(f@, *lo as int, *hi as int),
        }
    }
}

/// When a condition accepts a candidate value. A missing field or a
/// payload of the wrong variant never errors: the candidate simply does
/// not match.
pub open spec fn cond_matches(c: Cond, v: Val) -> bool {
    match c {
        Cond::CEquals(f, e) => match get_field_spec(v, f) {
            Some(a) => veq(a, e),
            None => false,
        },
        Cond::CGreaterThan(f, t) => match get_field_spec(v, f) {
            Some(Val::VInteger(n)) => n > t,
            _ => false,
        },
        Cond::CLessThan(f, t) => match get_field_spec(v, f) {
            Some(Val::VInteger(n)) => n < t,
            _ => false,
        },
        Cond::CContains(f, sub) => match get_field_spec(v, f) {
            Some(Val::VString(s)) => has_substring(s, sub),
            _ => false,
        },
        Cond::CBetween(f, lo, hi) => match get_field_spec(v, f) {
            Some(Val::VInteger(n)) => lo <= n <= hi,
            _ => false,
        },
    }
}

impl Condition {
    /// Evaluate this condition against a candidate value.
    pub fn matches(&self, value: &Value) -> (r: bool)
        ensures
            r == cond_matches(self@, value@),
    {
        match self {
            Condition::Equals(field, expected) => match value.get_field(field.as_str()) {
                Some(actual) => actual.structural_eq(expected),
                None => false,
            },
            Condition::GreaterThan(field, threshold) => match value.get_field(field.as_str()) {
                Some(actual) => match actual.as_integer() {
                    Some(n) => n > *threshold,
                    None => false,
                },
                None => false,
            },
            Condition::LessThan(field, threshold) => match value.get_field(field.as_str()) {
                Some(actual) => match actual.as_integer() {
                    Some(n) => n < *threshold,
                    None => false,
                },
                None => false,
            },
            Condition::Contains(field, substring) => match value.get_field(field.as_str()) {
                Some(actual) => match actual.as_string() {
                    Some(s) => str_contains(s.as_str(), substring.as_str()),
                    None => false,
                },
                None => false,
            },
            Condition::Between(field, lo, hi) => match value.get_field(field.as_str()) {
                Some(actual) => match actual.as_integer() {
                    Some(n) => *lo <= n && n <= *hi,
                    None => false,
                },
                None => false,
            },
        }
    }
}

/// An inclusive range accepts a candidate exactly when its field resolves
/// to an integer between the bounds, both ends included; in particular the
/// integers just outside either bound are rejected.
pub proof fn lemma_between_inclusive(f: Seq<char>, lo: int, hi: int, v: Val, n: int)
    requires
        get_field_spec(v, f) == Some(Val::VInteger(n)),
    ensures
        cond_matches(Cond::CBetween(f, lo, hi), v) <==> lo <= n <= hi,
        n == lo - 1 ==> !cond_matches(Cond::CBetween(f, lo, hi), v),
        n == hi + 1 ==> !cond_matches(Cond::CBetween(f, lo, hi), v),
{
}

/// The ordering conditions reject a candidate whose field is absent.
pub proof fn lemma_ordering_absent(f: Seq<char>, t: int, v: Val)
    requires
        get_field_spec(v, f) is None,
    ensures
        !cond_matches(Cond::CGreaterThan(f, t), v),
        !cond_matches(Cond::CLessThan(f, t), v),
{
}

/// The ordering conditions reject a candidate whose field holds anything
/// but an integer: floats and numeric strings never compare.
pub proof fn lemma_ordering_non_integer(f: Seq<char>, t: int, v: Val)
    requires
        get_field_spec(v, f) matches Some(w) && !(w is VInteger),
    ensures
        !cond_matches(Cond::CGreaterThan(f, t), v),
        !cond_matches(Cond::CLessThan(f, t), v),
{
}

} // verus!
