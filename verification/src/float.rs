//! Floating-point text, which is left to code outside this library.
//!
//! A coordinate is held as the bit pattern of a double. Reading one from text and printing one
//! as text are not proved here: the two functions below are believed to do what their contracts
//! say, and the contracts say no more than that each is a function of its argument.
use vstd::prelude::*;

verus! {

/// What `nom::number::complete::double` makes of `input`: the bit pattern of the number that
/// it reads from the start of `input` and how many bytes it leaves behind that number, or
/// `None` where it reads no number.
pub uninterp spec fn double_prefix(input: Seq<u8>) -> Option<(u64, usize)>;

/// The text that `std` prints, with `{}`, for the double that has the bit pattern `bits`.
pub uninterp spec fn double_text(bits: u64) -> Seq<u8>;

/// Calls `nom::number::complete::double` on `input`. The contract claims that the result
/// depends on the bytes of `input` alone, and that what is left behind the number is a part of
/// `input`, so no longer than it.
#[verifier::external_body]
pub(crate) fn recognize_double(input: &[u8]) -> (r: Option<(u64, usize)>)
    ensures
        r == double_prefix(input@),
        r matches Some((_, left)) ==> left <= input@.len(),
{
    match nom::number::complete::double::<&[u8], (&[u8], nom::error::ErrorKind)>(input) {
        Ok((rest, value)) => Some((value.to_bits(), rest.len())),
        Err(_) => None,
    }
}

/// Prints a double with `format!` and `{}`. The double is made from `bits` by
/// `nom::number::complete::le_f64`, which reads eight little-endian bytes. The contract claims
/// that the text depends on `bits` alone.
#[verifier::external_body]
pub(crate) fn format_double(bits: u64) -> (r: Vec<u8>)
    ensures
        r@ == double_text(bits),
{
    match nom::number::complete::le_f64::<(&[u8], nom::error::ErrorKind)>(&bits.to_le_bytes()) {
        Ok((_, value)) => format!("{}", value).into_bytes(),
        Err(_) => Vec::new(),
    }
}

/// The double that a field writes, if the whole field is one number.
pub open spec fn whole_double(field: Seq<u8>) -> Option<u64> {
    match double_prefix(field) {
        Some((bits, left)) => if left == 0 {
            Some(bits)
        } else {
            None
        },
        None => None,
    }
}

/// The double that was recognized, if nothing of the field was left behind it.
pub fn settle_double(recognized: Option<(u64, usize)>) -> (r: Option<u64>)
    ensures
        r == match recognized {
            Some((bits, left)) => if left == 0 {
                Some(bits)
            } else {
                None
            },
            None => None,
        },
{
    match recognized {
        Some((bits, left)) => if left == 0 {
            Some(bits)
        } else {
            None
        },
        None => None,
    }
}

/// Reads the double that the field `field` writes.
pub fn parse_double(field: &[u8]) -> (r: Option<u64>)
    ensures
        r == whole_double(field@),
{
    settle_double(recognize_double(field))
}

} // verus!
