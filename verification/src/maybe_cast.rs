//! The text of the implementations of `MaybeCast` for tuples.
//!
//! A tuple of values is cast into a tuple of values that may be there,
//! element by element. The implementations for the tuples of each size are
//! all alike, so their source text is generated; what is generated here is
//! the text, which is turned into tokens where it is used.

use vstd::prelude::*;
use vstd::string::StringExecFns;

verus! {

/// The smallest size of a tuple that can be asked for.
pub const MIN_TUPLE_SIZE: usize = 2;

/// Why no implementations were generated.
#[derive(Clone, Copy, Debug, PartialEq, Eq, Structural)]
pub enum TupleSizeError {
    /// The largest size asked for, which is carried here, is below two.
    TooSmall(usize),
}

impl TupleSizeError {
    /// What is wrong, in words.
    pub fn message(&self) -> (r: String)
        ensures
            r@ == "max tuple size must be at least 2"@,
    {
        String::from_str("max tuple size must be at least 2")
    }
}

/// The part of an implementation that is written once for each element of
/// the tuple.
#[derive(Clone, Copy, Debug, PartialEq, Eq, Structural)]
pub enum Part {
    /// The type parameter of the element, with its bound.
    Generic,
    /// The type of the element.
    Type,
    /// The type of the element after the cast.
    Output,
    /// The element of the empty tuple.
    Empty,
    /// The cast of the element.
    Cast,
}

/// The text of a digit.
pub open spec fn digit_text(d: nat) -> Seq<char> {
    if d == 0 {
        "0"@
    } else if d == 1 {
        "1"@
    } else if d == 2 {
        "2"@
    } else if d == 3 {
        "3"@
    } else if d == 4 {
        "4"@
    } else if d == 5 {
        "5"@
    } else if d == 6 {
        "6"@
    } else if d == 7 {
        "7"@
    } else if d == 8 {
        "8"@
    } else {
        "9"@
    }
}

/// The text of a number, in decimal.
pub open spec fn decimal_text(n: nat) -> Seq<char>
    decreases n,
{
    if n < 10 {
        digit_text(n)
    } else {
        decimal_text(n / 10) + digit_text(n % 10)
    }
}

/// The text of a part for the element with the number `i`.
pub open spec fn part_text(part: Part, i: nat) -> Seq<char> {
    match part {
        Part::Generic => "T"@ + decimal_text(i) + ": Send, "@,
        Part::Type => "T"@ + decimal_text(i) + ", "@,
        Part::Output => "K::Rebind<T"@ + decimal_text(i) + ">, "@,
        Part::Empty => "K::empty(), "@,
        Part::Cast => "K::maybe_just(|| self."@ + decimal_text(i) + "), "@,
    }
}

/// The text of a part for the first `size` elements, in their order.
pub open spec fn parts_text(part: Part, size: nat) -> Seq<char>
    decreases size,
{
    if size == 0 {
        Seq::empty()
    } else {
        parts_text(part, (size - 1) as nat) + part_text(part, (size - 1) as nat)
    }
}

/// The text of the implementation for tuples of the given size.
pub open spec fn impl_text(size: nat) -> Seq<char> {
    "impl<"@ + parts_text(Part::Generic, size) + "K: MaybeKind> MaybeCast<("@ + parts_text(
        Part::Type,
        size,
    ) + "), K> for ("@ + parts_text(Part::Type, size) + ") { type Output = ("@ + parts_text(
        Part::Output,
        size,
    ) + "); fn empty() -> Self::Output { ("@ + parts_text(Part::Empty, size)
        + ") } fn cast(self) -> Self::Output { ("@ + parts_text(Part::Cast, size) + ") } } "@
}

/// The text of the implementations for the sizes from `from` up to, and
/// without, `to`.
pub open spec fn impls_text(from: nat, to: nat) -> Seq<char>
    decreases to,
{
    if to <= from {
        Seq::empty()
    } else {
        impls_text(from, (to - 1) as nat) + impl_text((to - 1) as nat)
    }
}

/// The text of a digit.
pub fn digit(d: usize) -> (r: &'static str)
    requires
        d < 10,
    ensures
        r@ == digit_text(d as nat),
{
    if d == 0 {
        "0"
    } else if d == 1 {
        "1"
    } else if d == 2 {
        "2"
    } else if d == 3 {
        "3"
    } else if d == 4 {
        "4"
    } else if d == 5 {
        "5"
    } else if d == 6 {
        "6"
    } else if d == 7 {
        "7"
    } else if d == 8 {
        "8"
    } else {
        "9"
    }
}

/// The text of a number, in decimal.
pub fn decimal(n: usize) -> (r: String)
    ensures
        r@ == decimal_text(n as nat),
    decreases n,
{
    if n < 10 {
        String::from_str(digit(n))
    } else {
        let mut text = decimal(n / 10);
        text.append(digit(n % 10));
        text
    }
}

/// The text of a part for the first `size` elements, in their order.
pub fn parts(part: Part, size: usize) -> (r: String)
    ensures
        r@ == parts_text(part, size as nat),
{
    let mut text = String::new();
    let mut i: usize = 0;
    while i < size
        invariant
            0 <= i <= size,
            text@ == parts_text(part, i as nat),
        decreases size - i,
    {
        match part {
            Part::Generic => {
                text.append("T");
                text.append(decimal(i).as_str());
                text.append(": Send, ");
            },
            Part::Type => {
                text.append("T");
                text.append(decimal(i).as_str());
                text.append(", ");
            },
            Part::Output => {
                text.append("K::Rebind<T");
                text.append(decimal(i).as_str());
                text.append(">, ");
            },
            Part::Empty => {
                text.append("K::empty(), ");
            },
            Part::Cast => {
                text.append("K::maybe_just(|| self.");
                text.append(decimal(i).as_str());
                text.append("), ");
            },
        }
        proof {
            assert(text@ =~= parts_text(part, i as nat) + part_text(part, i as nat));
        }
        i += 1;
    }
    text
}

/// The text of the implementation of `MaybeCast` for tuples of the given
/// size: the elements have the types `T0`, `T1` and so on, and each is
/// cast by itself.
pub fn generate_impl_for_size(size: usize) -> (r: String)
    ensures
        r@ == impl_text(size as nat),
{
    let mut text = String::from_str("impl<");
    text.append(parts(Part::Generic, size).as_str());
    text.append("K: MaybeKind> MaybeCast<(");
    text.append(parts(Part::Type, size).as_str());
    text.append("), K> for (");
    text.append(parts(Part::Type, size).as_str());
    text.append(") { type Output = (");
    text.append(parts(Part::Output, size).as_str());
    text.append("); fn empty() -> Self::Output { (");
    text.append(parts(Part::Empty, size).as_str());
    text.append(") } fn cast(self) -> Self::Output { (");
    text.append(parts(Part::Cast, size).as_str());
    text.append(") } } ");
    text
}

/// The text of the implementations of `MaybeCast` for the tuples of each
/// size from two up to, and without, `max_tuple_size`. A size below two
/// is refused.
pub fn evaluate(max_tuple_size: usize) -> (r: Result<String, TupleSizeError>)
    ensures
        max_tuple_size < MIN_TUPLE_SIZE ==> r == Err::<String, TupleSizeError>(
            TupleSizeError::TooSmall(max_tuple_size),
        ),
        max_tuple_size >= MIN_TUPLE_SIZE ==> (r matches Ok(text) && text@ == impls_text(
            MIN_TUPLE_SIZE as nat,
            max_tuple_size as nat,
        )),
{
    if max_tuple_size < MIN_TUPLE_SIZE {
        return Err(TupleSizeError::TooSmall(max_tuple_size));
    }
    let mut text = String::new();
    let mut size: usize = MIN_TUPLE_SIZE;
    while size < max_tuple_size
        invariant
            MIN_TUPLE_SIZE <= size <= max_tuple_size,
            text@ == impls_text(MIN_TUPLE_SIZE as nat, size as nat),
        decreases max_tuple_size - size,
    {
        text.append(generate_impl_for_size(size).as_str());
        size += 1;
    }
    Ok(text)
}

} // verus!
