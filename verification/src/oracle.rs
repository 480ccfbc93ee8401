//! The arithmetic oracle: every numeric step of the pipeline is a question
//! about IEEE double-precision values, posed as a [`FloatQuery`] over bit
//! patterns to a caller-supplied closure. The library cannot perform this
//! arithmetic itself; its contracts are therefore stated relative to a
//! mathematical model of the closure — a function from queries to answers —
//! and promise the exact pipeline output for every model the closure follows.

use vstd::prelude::*;

use crate::ops::OpKind;

verus! {

/// One question about double-precision values, each carried as the value's
/// bit pattern in a `u64`.
#[derive(Clone, Copy, PartialEq, Eq, Structural, Debug)]
pub enum FloatQuery {
    /// The bit pattern of a face value converted to double precision.
    FaceValue(isize),
    /// The bit pattern of the operation applied to the two values.
    Combine(OpKind, u64, u64),
    /// Whether the first value is strictly below the second.
    Less(u64, u64),
    /// Whether the value is a not-a-number value.
    IsNan(u64),
    /// Whether the value has fractional part zero (false for infinities and
    /// not-a-number values).
    IsIntegral(u64),
    /// Whether the value is at least the given bound converted to double
    /// precision.
    AtLeast(u64, u64),
    /// Whether the value is at most the given bound converted to double
    /// precision.
    AtMost(u64, u64),
    /// The value converted (saturating) to an unsigned integer.
    ToTotal(u64),
    /// The display text of the value.
    Render(u64),
}

/// The answer to a [`FloatQuery`]; the variant is determined by the query.
#[derive(Clone, PartialEq, Eq, Debug)]
pub enum FloatAnswer {
    Bits(u64),
    Flag(bool),
    Int(u64),
    Text(String),
}

/// The oracle accepts every query.
pub open spec fn oracle_callable<F: Fn(FloatQuery) -> FloatAnswer>(f: &F) -> bool {
    forall|q: FloatQuery| #[trigger] call_requires(*f, (q,))
}

/// `m` is a model of the oracle: every answer the oracle can give agrees
/// with `m`. A deterministic closure — as double-precision arithmetic is —
/// has exactly one model.
pub open spec fn oracle_models<F: Fn(FloatQuery) -> FloatAnswer>(
    f: &F,
    m: spec_fn(FloatQuery) -> FloatAnswer,
) -> bool {
    forall|q: FloatQuery, r: FloatAnswer| #[trigger] call_ensures(*f, (q,), r) ==> r == m(q)
}

/// The bit pattern a model gives for a query, defaulting on a wrongly-typed
/// answer exactly as the executable pipeline does.
pub open spec fn m_bits(m: spec_fn(FloatQuery) -> FloatAnswer, q: FloatQuery) -> u64 {
    match m(q) {
        FloatAnswer::Bits(b) => b,
        _ => 0,
    }
}

/// The flag a model gives for a query.
pub open spec fn m_flag(m: spec_fn(FloatQuery) -> FloatAnswer, q: FloatQuery) -> bool {
    match m(q) {
        FloatAnswer::Flag(b) => b,
        _ => false,
    }
}

/// The integer a model gives for a query.
pub open spec fn m_int(m: spec_fn(FloatQuery) -> FloatAnswer, q: FloatQuery) -> u64 {
    match m(q) {
        FloatAnswer::Int(u) => u,
        _ => 0,
    }
}

/// The text a model gives for a query.
pub open spec fn m_text(m: spec_fn(FloatQuery) -> FloatAnswer, q: FloatQuery) -> Seq<char> {
    match m(q) {
        FloatAnswer::Text(s) => s@,
        _ => Seq::empty(),
    }
}

/// Asks the oracle for a bit pattern.
pub fn ask_bits<F: Fn(FloatQuery) -> FloatAnswer>(oracle: &F, q: FloatQuery) -> (r: u64)
    requires
        oracle_callable(oracle),
    ensures
        forall|m: spec_fn(FloatQuery) -> FloatAnswer|
            #[trigger] oracle_models(oracle, m) ==> r == m_bits(m, q),
{
    match oracle(q) {
        FloatAnswer::Bits(b) => b,
        _ => 0,
    }
}

/// Asks the oracle for a flag.
pub fn ask_flag<F: Fn(FloatQuery) -> FloatAnswer>(oracle: &F, q: FloatQuery) -> (r: bool)
    requires
        oracle_callable(oracle),
    ensures
        forall|m: spec_fn(FloatQuery) -> FloatAnswer|
            #[trigger] oracle_models(oracle, m) ==> r == m_flag(m, q),
{
    match oracle(q) {
        FloatAnswer::Flag(b) => b,
        _ => false,
    }
}

/// Asks the oracle for an integer.
pub fn ask_int<F: Fn(FloatQuery) -> FloatAnswer>(oracle: &F, q: FloatQuery) -> (r: u64)
    requires
        oracle_callable(oracle),
    ensures
        forall|m: spec_fn(FloatQuery) -> FloatAnswer|
            #[trigger] oracle_models(oracle, m) ==> r == m_int(m, q),
{
    match oracle(q) {
        FloatAnswer::Int(u) => u,
        _ => 0,
    }
}

/// Asks the oracle for a text.
pub fn ask_text<F: Fn(FloatQuery) -> FloatAnswer>(oracle: &F, q: FloatQuery) -> (r: String)
    requires
        oracle_callable(oracle),
    ensures
        forall|m: spec_fn(FloatQuery) -> FloatAnswer|
            #[trigger] oracle_models(oracle, m) ==> r@ == m_text(m, q),
{
    match oracle(q) {
        FloatAnswer::Text(s) => s,
        _ => String::new(),
    }
}

} // verus!
