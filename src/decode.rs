use vstd::prelude::*;
use vstd::utf8::{decode_utf8, valid_utf8};

use crate::format::{
    digits_value, header_error, header_field, is_digit, le_word, lemma_digit_run, lemma_token_run,
    record_field, text_field, uint_field, vector_at, FormatError, HeaderFault,
};

verus! {

/// Decodes ASCII decimal digits followed by `terminator`; returns the number of
/// bytes consumed (digits and terminator) and the value.
pub fn decode_ascii_uint(input: &[u8], terminator: u8) -> (r: Result<(usize, u32), FormatError>)
    ensures
        uint_field(input@, terminator) == match r {
            Ok((n, v)) => Ok((n as int, v as int)),
            Err(e) => Err(e),
        },
{
    if input.len() == 0 || !(48 <= input[0] && input[0] <= 57) {
        return Err(FormatError::InvalidInteger);
    }
    let mut i: usize = 0;
    let mut acc: u64 = 0;
    let mut over = false;
    while i < input.len() && 48 <= input[i] && input[i] <= 57
        invariant
            i <= input@.len(),
            forall|j: int| 0 <= j < i ==> is_digit(#[trigger] input@[j]),
            !over ==> acc == digits_value(input@.subrange(0, i as int)) && acc <= u32::MAX,
            over ==> digits_value(input@.subrange(0, i as int)) > u32::MAX,
            digits_value(input@.subrange(0, i as int)) >= 0,
        decreases input@.len() - i,
    {
        let d = input[i];
        proof {
            assert(input@.subrange(0, i + 1).drop_last() == input@.subrange(0, i as int));
        }
        if !over {
            acc = acc * 10 + (d - 48) as u64;
            if acc > 4294967295 {
                over = true;
            }
        }
        i = i + 1;
    }
    proof {
        lemma_digit_run(input@, i as int);
    }
    if i >= input.len() || input[i] != terminator {
        return Err(FormatError::MissingTerminator);
    }
    if over {
        return Err(FormatError::IntegerOverflow);
    }
    Ok((i + 1, acc as u32))
}

pub uninterp spec fn lossy_text_of(b: Seq<u8>) -> Seq<char>;

/// Relies on String::from_utf8_lossy: valid UTF-8 decodes as is, and any invalid
/// sequence is replaced by U+FFFD.
#[verifier::external_body]
fn text_from_bytes(b: &[u8]) -> (r: String)
    ensures
        r@ == lossy_text_of(b@),
        valid_utf8(b@) ==> r@ == decode_utf8(b@),
        !valid_utf8(b@) ==> r@.contains('\u{FFFD}'),
{
    String::from_utf8_lossy(b).into_owned()
}

/// Decodes a non-empty token ended by `terminator`; returns the bytes consumed
/// (token and terminator) and the token decoded as text.
pub fn decode_terminated_text(input: &[u8], terminator: u8) -> (r: Result<(usize, String), FormatError>)
    ensures
        match r {
            Ok((n, s)) => {
                &&& text_field(input@, terminator) == Ok::<(int, Seq<u8>), FormatError>(
                    (n as int, input@.subrange(0, n - 1)),
                )
                &&& s@ == lossy_text_of(input@.subrange(0, n - 1))
                &&& valid_utf8(input@.subrange(0, n - 1)) ==> s@ == decode_utf8(
                    input@.subrange(0, n - 1),
                )
                &&& !valid_utf8(input@.subrange(0, n - 1)) ==> s@.contains('\u{FFFD}')
            },
            Err(e) => text_field(input@, terminator) == Err::<(int, Seq<u8>), FormatError>(e),
        },
{
    let mut i: usize = 0;
    while i < input.len() && input[i] != terminator
        invariant
            i <= input@.len(),
            forall|j: int| 0 <= j < i ==> #[trigger] input@[j] != terminator,
        decreases input@.len() - i,
    {
        i = i + 1;
    }
    proof {
        lemma_token_run(input@, terminator, i as int);
    }
    if i >= input.len() {
        return Err(FormatError::MissingTerminator);
    }
    if i == 0 {
        return Err(FormatError::EmptyToken);
    }
    let token = vstd::slice::slice_subrange(input, 0, i);
    let s = text_from_bytes(token);
    Ok((i + 1, s))
}

/// The two fields of a file's first line.
#[derive(Debug, PartialEq, Eq)]
pub struct Header {
    pub record_count: u32,
    pub dimension: u32,
}

fn wrap_header_error(e: FormatError) -> (r: FormatError)
    ensures
        r == header_error(e),
{
    match e {
        FormatError::InvalidInteger => FormatError::HeaderMalformed(HeaderFault::InvalidInteger),
        FormatError::IntegerOverflow => FormatError::HeaderMalformed(HeaderFault::IntegerOverflow),
        _ => FormatError::HeaderMalformed(HeaderFault::MissingTerminator),
    }
}

/// Decodes `<count> <dimension>\n`; returns the bytes consumed and the header.
pub fn decode_header(input: &[u8]) -> (r: Result<(usize, Header), FormatError>)
    ensures
        header_field(input@) == match r {
            Ok((n, h)) => Ok((n as int, h.record_count as int, h.dimension as int)),
            Err(e) => Err(e),
        },
{
    let (k, count) = match decode_ascii_uint(input, 32) {
        Ok(p) => p,
        Err(e) => return Err(wrap_header_error(e)),
    };
    let rest = vstd::slice::slice_subrange(input, k, input.len());
    let (m, dim) = match decode_ascii_uint(rest, 10) {
        Ok(p) => p,
        Err(e) => return Err(wrap_header_error(e)),
    };
    let total = input.len();
    assert(rest@.len() == total - k);
    Ok((k + m, Header { record_count: count, dimension: dim }))
}

/// One decoded record; each vector component is the bit pattern of a
/// little-endian IEEE-754 single-precision float.
pub struct Record {
    pub word: String,
    pub vector: Vec<u32>,
}

/// Decodes `<word> <dimension little-endian floats>` from the front of `input`.
pub fn decode_record(input: &[u8], dimension: u32) -> (r: Result<(usize, Record), FormatError>)
    ensures
        match r {
            Ok((n, rec)) => {
                &&& record_field(input@, dimension) == Ok::<(int, Seq<u8>, Seq<u32>), FormatError>(
                    (n as int, input@.subrange(0, n - 4 * dimension - 1), rec.vector@),
                )
                &&& rec.word@ == lossy_text_of(input@.subrange(0, n - 4 * dimension - 1))
                &&& valid_utf8(input@.subrange(0, n - 4 * dimension - 1)) ==> rec.word@
                    == decode_utf8(input@.subrange(0, n - 4 * dimension - 1))
                &&& !valid_utf8(input@.subrange(0, n - 4 * dimension - 1)) ==> rec.word@.contains(
                    '\u{FFFD}',
                )
            },
            Err(e) => record_field(input@, dimension) == Err::<(int, Seq<u8>, Seq<u32>), FormatError>(e),
        },
{
    let (k, word) = match decode_terminated_text(input, 32) {
        Ok(p) => p,
        Err(e) => return Err(e),
    };
    let total = input.len();
    let need: u64 = dimension as u64 * 4;
    if ((total - k) as u64) < need {
        return Err(FormatError::TruncatedVector);
    }
    assert(k + 4 * dimension <= total);
    let mut vector: Vec<u32> = Vec::new();
    let mut j: usize = 0;
    while j < dimension as usize
        invariant
            k + 4 * dimension <= input@.len(),
            total == input@.len(),
            j <= dimension,
            vector@.len() == j,
            forall|t: int| 0 <= t < j ==> #[trigger] vector@[t] == le_word(input@, k + 4 * t) as u32,
        decreases dimension - j,
    {
        assert(k + 4 * j + 4 <= input@.len()) by (nonlinear_arith)
            requires
                j < dimension,
                k + 4 * dimension <= input@.len(),
        ;
        let p = k + 4 * j;
        let w: u32 = input[p] as u32 + input[p + 1] as u32 * 256 + input[p + 2] as u32 * 65536
            + input[p + 3] as u32 * 16777216;
        vector.push(w);
        j = j + 1;
    }
    assert(vector@ == vector_at(input@, k as int, dimension as nat));
    Ok((k + 4 * j, Record { word, vector }))
}

} // verus!
