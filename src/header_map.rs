//! The angle brackets around a structured header record value (`<...>`).

use vstd::prelude::*;
use vstd::slice::slice_subrange;

verus! {

/// An error returned when the brackets of a header record map value are missing.
#[derive(Clone, Copy, Debug, Eq, PartialEq, Structural)]
pub enum ParseError {
    /// The value does not start with `<`.
    InvalidPrefix,
    /// The value does not end with `>`.
    InvalidSuffix,
    /// The input ended first.
    UnexpectedEof,
}

/// Consumes the byte `expected` at the start of `src`, or reports `on_mismatch`.
fn consume_byte(src: &mut &[u8], expected: u8, on_mismatch: ParseError) -> (r: Result<
    (),
    ParseError,
>)
    ensures
        old(src)@.len() == 0 ==> r == Err::<(), ParseError>(ParseError::UnexpectedEof)
            && final(src)@ == old(src)@,
        old(src)@.len() > 0 && old(src)@[0] == expected ==> r is Ok && final(src)@ == old(
            src,
        )@.drop_first(),
        old(src)@.len() > 0 && old(src)@[0] != expected ==> r == Err::<(), ParseError>(
            on_mismatch,
        ) && final(src)@ == old(src)@,
{
    let s: &[u8] = *src;
    if s.len() == 0 {
        Err(ParseError::UnexpectedEof)
    } else if s[0] == expected {
        *src = slice_subrange(s, 1, s.len());
        assert(src@ =~= s@.drop_first());
        Ok(())
    } else {
        Err(on_mismatch)
    }
}

/// Consumes the opening `<` of a map value.
pub fn consume_prefix(src: &mut &[u8]) -> (r: Result<(), ParseError>)
    ensures
        old(src)@.len() == 0 ==> r == Err::<(), ParseError>(ParseError::UnexpectedEof)
            && final(src)@ == old(src)@,
        old(src)@.len() > 0 && old(src)@[0] == 0x3c ==> r is Ok && final(src)@ == old(
            src,
        )@.drop_first(),
        old(src)@.len() > 0 && old(src)@[0] != 0x3c ==> r == Err::<(), ParseError>(
            ParseError::InvalidPrefix,
        ) && final(src)@ == old(src)@,
{
    consume_byte(src, 0x3c, ParseError::InvalidPrefix)
}

/// Consumes the closing `>` of a map value.
pub fn consume_suffix(src: &mut &[u8]) -> (r: Result<(), ParseError>)
    ensures
        old(src)@.len() == 0 ==> r == Err::<(), ParseError>(ParseError::UnexpectedEof)
            && final(src)@ == old(src)@,
        old(src)@.len() > 0 && old(src)@[0] == 0x3e ==> r is Ok && final(src)@ == old(
            src,
        )@.drop_first(),
        old(src)@.len() > 0 && old(src)@[0] != 0x3e ==> r == Err::<(), ParseError>(
            ParseError::InvalidSuffix,
        ) && final(src)@ == old(src)@,
{
    consume_byte(src, 0x3e, ParseError::InvalidSuffix)
}

} // verus!
