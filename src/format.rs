use vstd::prelude::*;

verus! {

/// Which failure of the integer decoder made a header field unreadable.
#[derive(Debug, PartialEq, Eq)]
pub enum HeaderFault {
    InvalidInteger,
    IntegerOverflow,
    MissingTerminator,
}

/// Errors raised while decoding a word2vec binary file.
#[derive(Debug, PartialEq, Eq)]
pub enum FormatError {
    HeaderMalformed(HeaderFault),
    InvalidInteger,
    IntegerOverflow,
    MissingTerminator,
    EmptyToken,
    TruncatedVector,
    LengthMismatch,
}

/// A decoding failure of a whole file, with the byte offset at which the
/// failing header, record or remainder starts.
#[derive(Debug, PartialEq, Eq)]
pub struct LoadError {
    pub offset: usize,
    pub error: FormatError,
}

pub open spec fn is_digit(b: u8) -> bool {
    48 <= b <= 57
}

/// Number of ASCII digits at the front of `s`.
pub open spec fn digit_run(s: Seq<u8>) -> nat
    decreases s.len(),
{
    if s.len() > 0 && is_digit(s[0]) {
        1 + digit_run(s.drop_first())
    } else {
        0
    }
}

/// Number of bytes at the front of `s` that differ from `t`.
pub open spec fn token_run(s: Seq<u8>, t: u8) -> nat
    decreases s.len(),
{
    if s.len() > 0 && s[0] != t {
        1 + token_run(s.drop_first(), t)
    } else {
        0
    }
}

/// Base-10 value of a run of ASCII digits.
pub open spec fn digits_value(s: Seq<u8>) -> int
    decreases s.len(),
{
    if s.len() == 0 {
        0
    } else {
        digits_value(s.drop_last()) * 10 + (s.last() - 48)
    }
}

/// The integer field at the front of `s`: the bytes consumed (digits and
/// terminator) and the value, or why it does not decode.
pub open spec fn uint_field(s: Seq<u8>, t: u8) -> Result<(int, int), FormatError> {
    let k = digit_run(s) as int;
    if k == 0 {
        Err(FormatError::InvalidInteger)
    } else if k >= s.len() || s[k] != t {
        Err(FormatError::MissingTerminator)
    } else if digits_value(s.subrange(0, k)) > u32::MAX {
        Err(FormatError::IntegerOverflow)
    } else {
        Ok((k + 1, digits_value(s.subrange(0, k))))
    }
}

/// The terminated token at the front of `s`: the bytes consumed and the
/// token's bytes, or why it does not decode.
pub open spec fn text_field(s: Seq<u8>, t: u8) -> Result<(int, Seq<u8>), FormatError> {
    let k = token_run(s, t) as int;
    if k >= s.len() {
        Err(FormatError::MissingTerminator)
    } else if k == 0 {
        Err(FormatError::EmptyToken)
    } else {
        Ok((k + 1, s.subrange(0, k)))
    }
}

pub open spec fn header_error(e: FormatError) -> FormatError {
    match e {
        FormatError::InvalidInteger => FormatError::HeaderMalformed(HeaderFault::InvalidInteger),
        FormatError::IntegerOverflow => FormatError::HeaderMalformed(HeaderFault::IntegerOverflow),
        _ => FormatError::HeaderMalformed(HeaderFault::MissingTerminator),
    }
}

/// `<count> <dimension>\n`: the bytes consumed, the count and the dimension.
pub open spec fn header_field(s: Seq<u8>) -> Result<(int, int, int), FormatError> {
    match uint_field(s, 32) {
        Err(e) => Err(header_error(e)),
        Ok((k, c)) => match uint_field(s.subrange(k, s.len() as int), 10) {
            Err(e) => Err(header_error(e)),
            Ok((m, d)) => Ok((k + m, c, d)),
        },
    }
}

/// Value of four bytes read as a little-endian 32-bit word.
pub open spec fn le_word(s: Seq<u8>, at: int) -> int {
    s[at] + s[at + 1] * 256 + s[at + 2] * 65536 + s[at + 3] * 16777216
}

/// `dim` little-endian words of `s` starting at `at`.
pub open spec fn vector_at(s: Seq<u8>, at: int, dim: nat) -> Seq<u32> {
    Seq::new(dim, |j: int| le_word(s, at + 4 * j) as u32)
}

/// `<word> <dim floats>`: the bytes consumed, the word's bytes and the
/// vector's bit patterns.
pub open spec fn record_field(s: Seq<u8>, dim: u32) -> Result<(int, Seq<u8>, Seq<u32>), FormatError> {
    match text_field(s, 32) {
        Err(e) => Err(e),
        Ok((k, w)) => if s.len() - k < 4 * dim {
            Err(FormatError::TruncatedVector)
        } else {
            Ok((k + 4 * dim, w, vector_at(s, k, dim as nat)))
        },
    }
}

/// `n` records of `s` from `start` on: where they end and what they hold, or
/// the first error with the offset of the record it stopped at. The input
/// ending where a record should begin is a length mismatch.
pub open spec fn records_field(s: Seq<u8>, start: int, n: nat, dim: u32) -> Result<
    (int, Seq<(Seq<u8>, Seq<u32>)>),
    (int, FormatError),
>
    decreases n,
{
    if n == 0 {
        Ok((start, Seq::empty()))
    } else {
        match records_field(s, start, (n - 1) as nat, dim) {
            Err(e) => Err(e),
            Ok((p, rs)) => if p >= s.len() {
                Err((p, FormatError::LengthMismatch))
            } else {
                match record_field(s.subrange(p, s.len() as int), dim) {
                    Err(e) => Err((p, e)),
                    Ok((m, w, v)) => Ok((p + m, rs.push((w, v)))),
                }
            },
        }
    }
}

/// A whole file: its count, its dimension and its records, or the first error
/// with the offset at which the failing part starts.
pub open spec fn file_contents(s: Seq<u8>) -> Result<
    (int, int, Seq<(Seq<u8>, Seq<u32>)>),
    (int, FormatError),
> {
    match header_field(s) {
        Err(e) => Err((0, e)),
        Ok((k, c, d)) => match records_field(s, k, c as nat, d as u32) {
            Err(e) => Err(e),
            Ok((end, rs)) => if end != s.len() {
                Err((end, FormatError::LengthMismatch))
            } else {
                Ok((c, d, rs))
            },
        },
    }
}

pub open spec fn well_formed_file(s: Seq<u8>) -> bool {
    file_contents(s) is Ok
}

pub proof fn lemma_digit_run(s: Seq<u8>, k: int)
    requires
        0 <= k <= s.len(),
        forall|j: int| 0 <= j < k ==> is_digit(#[trigger] s[j]),
        k == s.len() || !is_digit(s[k]),
    ensures
        digit_run(s) == k,
    decreases k,
{
    if k > 0 {
        let r = s.drop_first();
        assert forall|j: int| 0 <= j < k - 1 implies is_digit(#[trigger] r[j]) by {
            assert(r[j] == s[j + 1]);
        }
        if k < s.len() {
            assert(r[k - 1] == s[k]);
        }
        lemma_digit_run(r, k - 1);
    }
}

pub proof fn lemma_token_run(s: Seq<u8>, t: u8, k: int)
    requires
        0 <= k <= s.len(),
        forall|j: int| 0 <= j < k ==> #[trigger] s[j] != t,
        k == s.len() || s[k] == t,
    ensures
        token_run(s, t) == k,
    decreases k,
{
    if k > 0 {
        let r = s.drop_first();
        assert forall|j: int| 0 <= j < k - 1 implies #[trigger] r[j] != t by {
            assert(r[j] == s[j + 1]);
        }
        if k < s.len() {
            assert(r[k - 1] == s[k]);
        }
        lemma_token_run(r, t, k - 1);
    }
}

/// Once the records of a file fail, reading more of them fails the same way.
pub proof fn lemma_records_error_persists(s: Seq<u8>, start: int, n: nat, m: nat, dim: u32)
    requires
        n <= m,
        records_field(s, start, n, dim) is Err,
    ensures
        records_field(s, start, m, dim) == records_field(s, start, n, dim),
    decreases m - n,
{
    if m > n {
        lemma_records_error_persists(s, start, n, (m - 1) as nat, dim);
    }
}

} // verus!
