//! The element type of a matrix: a ring-like scalar with an additive
//! identity, addition, multiplication and a textual form.
use vstd::prelude::*;

verus! {

/// A numeric element type. Addition and multiplication follow the type's
/// own arithmetic (integers wrap around at the type's bounds).
pub trait Scalar: Copy + Sized {
    /// The additive identity.
    spec fn zero_spec() -> Self;

    spec fn plus_spec(self, o: Self) -> Self;

    spec fn times_spec(self, o: Self) -> Self;

    /// The text that `text` renders.
    spec fn text_spec(self) -> Seq<char>;

    fn zero() -> (r: Self)
        ensures
            r == Self::zero_spec(),
    ;

    fn plus(self, o: Self) -> (r: Self)
        ensures
            r == self.plus_spec(o),
    ;

    fn times(self, o: Self) -> (r: Self)
        ensures
            r == self.times_spec(o),
    ;

    fn text(&self) -> (r: String)
        ensures
            r@ == self.text_spec(),
    ;
}

/// The decimal digit `d` (0 to 9) as a character.
pub open spec fn digit_char(d: nat) -> char {
    seq!['0', '1', '2', '3', '4', '5', '6', '7', '8', '9'][d as int]
}

/// The decimal digits of `n`, most significant first, without leading zeros.
pub open spec fn digits_of(n: nat) -> Seq<char>
    decreases n,
{
    if n < 10 {
        seq![digit_char(n)]
    } else {
        digits_of(n / 10).push(digit_char(n % 10))
    }
}

/// The decimal form of an integer, with a leading `-` when it is negative.
pub open spec fn decimal_text(v: int) -> Seq<char> {
    if v < 0 {
        seq!['-'] + digits_of((-v) as nat)
    } else {
        digits_of(v as nat)
    }
}

/// Relies on `<i32 as Display>::fmt`: an integer is written in decimal.
#[verifier::external_body]
fn i32_text(x: i32) -> (r: String)
    ensures
        r@ == decimal_text(x as int),
{
    format!("{}", x)
}

/// Relies on `<i64 as Display>::fmt`: an integer is written in decimal.
#[verifier::external_body]
fn i64_text(x: i64) -> (r: String)
    ensures
        r@ == decimal_text(x as int),
{
    format!("{}", x)
}

/// Relies on `<u32 as Display>::fmt`: an integer is written in decimal.
#[verifier::external_body]
fn u32_text(x: u32) -> (r: String)
    ensures
        r@ == decimal_text(x as int),
{
    format!("{}", x)
}

/// Relies on `<u64 as Display>::fmt`: an integer is written in decimal.
#[verifier::external_body]
fn u64_text(x: u64) -> (r: String)
    ensures
        r@ == decimal_text(x as int),
{
    format!("{}", x)
}

impl Scalar for i32 {
    open spec fn zero_spec() -> i32 {
        0
    }

    open spec fn plus_spec(self, o: i32) -> i32 {
        self.wrapping_add(o)
    }

    open spec fn times_spec(self, o: i32) -> i32 {
        self.wrapping_mul(o)
    }

    open spec fn text_spec(self) -> Seq<char> {
        decimal_text(self as int)
    }

    fn zero() -> (r: i32) {
        0
    }

    fn plus(self, o: i32) -> (r: i32) {
        self.wrapping_add(o)
    }

    fn times(self, o: i32) -> (r: i32) {
        self.wrapping_mul(o)
    }

    fn text(&self) -> (r: String) {
        i32_text(*self)
    }
}

impl Scalar for i64 {
    open spec fn zero_spec() -> i64 {
        0
    }

    open spec fn plus_spec(self, o: i64) -> i64 {
        self.wrapping_add(o)
    }

    open spec fn times_spec(self, o: i64) -> i64 {
        self.wrapping_mul(o)
    }

    open spec fn text_spec(self) -> Seq<char> {
        decimal_text(self as int)
    }

    fn zero() -> (r: i64) {
        0
    }

    fn plus(self, o: i64) -> (r: i64) {
        self.wrapping_add(o)
    }

    fn times(self, o: i64) -> (r: i64) {
        self.wrapping_mul(o)
    }

    fn text(&self) -> (r: String) {
        i64_text(*self)
    }
}

impl Scalar for u32 {
    open spec fn zero_spec() -> u32 {
        0
    }

    open spec fn plus_spec(self, o: u32) -> u32 {
        self.wrapping_add(o)
    }

    open spec fn times_spec(self, o: u32) -> u32 {
        self.wrapping_mul(o)
    }

    open spec fn text_spec(self) -> Seq<char> {
        decimal_text(self as int)
    }

    fn zero() -> (r: u32) {
        0
    }

    fn plus(self, o: u32) -> (r: u32) {
        self.wrapping_add(o)
    }

    fn times(self, o: u32) -> (r: u32) {
        self.wrapping_mul(o)
    }

    fn text(&self) -> (r: String) {
        u32_text(*self)
    }
}

impl Scalar for u64 {
    open spec fn zero_spec() -> u64 {
        0
    }

    open spec fn plus_spec(self, o: u64) -> u64 {
        self.wrapping_add(o)
    }

    open spec fn times_spec(self, o: u64) -> u64 {
        self.wrapping_mul(o)
    }

    open spec fn text_spec(self) -> Seq<char> {
        decimal_text(self as int)
    }

    fn zero() -> (r: u64) {
        0
    }

    fn plus(self, o: u64) -> (r: u64) {
        self.wrapping_add(o)
    }

    fn times(self, o: u64) -> (r: u64) {
        self.wrapping_mul(o)
    }

    fn text(&self) -> (r: String) {
        u64_text(*self)
    }
}

} // verus!
