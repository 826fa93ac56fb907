use vstd::prelude::*;

use crate::decode::lossy_text_of;
use crate::format::{
    digit_run, digits_value, file_contents, header_field, is_digit, le_word, lemma_digit_run,
    lemma_records_error_persists, lemma_token_run, record_field, records_field, text_field,
    token_run, uint_field, vector_at, FormatError,
};
use crate::store::table_of;

verus! {

/// The ASCII decimal spelling of `n`, without leading zeros.
pub open spec fn decimal(n: nat) -> Seq<u8>
    decreases n,
{
    if n < 10 {
        seq![(48 + n) as u8]
    } else {
        decimal(n / 10).push((48 + n % 10) as u8)
    }
}

/// The spelling of `n` is a non-empty run of digits whose value is `n`.
pub proof fn lemma_decimal(n: nat)
    ensures
        decimal(n).len() >= 1,
        forall|j: int| 0 <= j < decimal(n).len() ==> is_digit(#[trigger] decimal(n)[j]),
        digits_value(decimal(n)) == n,
    decreases n,
{
    if n < 10 {
        assert(decimal(n).drop_last() =~= Seq::<u8>::empty());
        assert(digits_value(Seq::<u8>::empty()) == 0);
        assert(digits_value(decimal(n)) == digits_value(decimal(n).drop_last()) * 10 + (decimal(n).last() - 48));
    } else {
        lemma_decimal(n / 10);
        assert(decimal(n).drop_last() =~= decimal(n / 10));
        assert(decimal(n).last() == (48 + n % 10) as u8);
        assert(n == (n / 10) * 10 + n % 10) by (nonlinear_arith);
        assert(digits_value(decimal(n)) == digits_value(decimal(n).drop_last()) * 10 + (decimal(n).last() - 48));
    }
}

/// A number spelled in decimal and followed by a non-digit terminator decodes to
/// itself with nothing of the spelling left over, or overflows when it does not
/// fit in 32 bits.
pub proof fn lemma_uint_round_trip(n: nat, t: u8, rest: Seq<u8>)
    requires
        !is_digit(t),
    ensures
        n <= u32::MAX ==> uint_field(decimal(n) + seq![t] + rest, t) == Ok::<(int, int), FormatError>(
            ((decimal(n).len() + 1) as int, n as int),
        ),
        n > u32::MAX ==> uint_field(decimal(n) + seq![t] + rest, t) == Err::<(int, int), FormatError>(
            FormatError::IntegerOverflow,
        ),
{
    lemma_decimal(n);
    let d = decimal(n);
    let s = d + seq![t] + rest;
    assert forall|j: int| 0 <= j < d.len() implies is_digit(#[trigger] s[j]) by {
        assert(s[j] == d[j]);
    }
    assert(s[d.len() as int] == t);
    lemma_digit_run(s, d.len() as int);
    assert(s.subrange(0, d.len() as int) =~= d);
}

/// A number followed by another non-digit byte than the terminator, or by
/// nothing at all, lacks its terminator.
pub proof fn lemma_uint_missing_terminator(n: nat, b: u8, t: u8, rest: Seq<u8>)
    requires
        !is_digit(b),
        b != t,
    ensures
        uint_field(decimal(n) + seq![b] + rest, t) == Err::<(int, int), FormatError>(
            FormatError::MissingTerminator,
        ),
        uint_field(decimal(n), t) == Err::<(int, int), FormatError>(FormatError::MissingTerminator),
{
    lemma_decimal(n);
    let d = decimal(n);
    let s = d + seq![b] + rest;
    assert forall|j: int| 0 <= j < d.len() implies is_digit(#[trigger] s[j]) by {
        assert(s[j] == d[j]);
    }
    assert(s[d.len() as int] == b);
    lemma_digit_run(s, d.len() as int);
    lemma_digit_run(d, d.len() as int);
}

/// A token that starts with its terminator is empty; any other token free of the
/// terminator comes back byte for byte.
pub proof fn lemma_text_round_trip(w: Seq<u8>, t: u8, rest: Seq<u8>)
    requires
        forall|j: int| 0 <= j < w.len() ==> #[trigger] w[j] != t,
    ensures
        w.len() == 0 ==> text_field(w + seq![t] + rest, t) == Err::<(int, Seq<u8>), FormatError>(
            FormatError::EmptyToken,
        ),
        w.len() > 0 ==> text_field(w + seq![t] + rest, t) == Ok::<(int, Seq<u8>), FormatError>(
            ((w.len() + 1) as int, w),
        ),
{
    let s = w + seq![t] + rest;
    assert forall|j: int| 0 <= j < w.len() implies #[trigger] s[j] != t by {
        assert(s[j] == w[j]);
    }
    assert(s[w.len() as int] == t);
    lemma_token_run(s, t, w.len() as int);
    assert(s.subrange(0, w.len() as int) =~= w);
}

/// A record whose word is followed by fewer than `4 * dim` bytes is truncated.
pub proof fn lemma_truncated_vector(s: Seq<u8>, dim: u32)
    requires
        text_field(s, 32) is Ok,
        s.len() - text_field(s, 32)->Ok_0.0 < 4 * dim,
    ensures
        record_field(s, dim) == Err::<(int, Seq<u8>, Seq<u32>), FormatError>(FormatError::TruncatedVector),
{
}

/// A file whose records run out before the declared count is a length mismatch.
pub proof fn lemma_too_few_records(
    s: Seq<u8>,
    k: int,
    c: int,
    d: int,
    n: nat,
    rs: Seq<(Seq<u8>, Seq<u32>)>,
)
    requires
        header_field(s) == Ok::<(int, int, int), FormatError>((k, c, d)),
        n < c,
        records_field(s, k, n, d as u32) == Ok::<(int, Seq<(Seq<u8>, Seq<u32>)>), (int, FormatError)>(
            (s.len() as int, rs),
        ),
    ensures
        file_contents(s) == Err::<(int, int, Seq<(Seq<u8>, Seq<u32>)>), (int, FormatError)>(
            (s.len() as int, FormatError::LengthMismatch),
        ),
{
    assert(records_field(s, k, n + 1, d as u32) == Err::<(int, Seq<(Seq<u8>, Seq<u32>)>), (int, FormatError)>(
        (s.len() as int, FormatError::LengthMismatch),
    ));
    lemma_records_error_persists(s, k, n + 1, c as nat, d as u32);
}

/// Decoding depends on the bytes alone: the same file always gives the same
/// count, dimension and records, or the same error.
pub proof fn lemma_decode_deterministic(a: Seq<u8>, b: Seq<u8>)
    requires
        a == b,
    ensures
        file_contents(a) == file_contents(b),
{
}

proof fn lemma_digit_run_bounds(s: Seq<u8>)
    ensures
        digit_run(s) <= s.len(),
        forall|j: int| 0 <= j < digit_run(s) ==> is_digit(#[trigger] s[j]),
        digit_run(s) < s.len() ==> !is_digit(s[digit_run(s) as int]),
    decreases s.len(),
{
    if s.len() > 0 && is_digit(s[0]) {
        let r = s.drop_first();
        lemma_digit_run_bounds(r);
        assert forall|j: int| 0 <= j < digit_run(s) implies is_digit(#[trigger] s[j]) by {
            if j > 0 {
                assert(s[j] == r[j - 1]);
            }
        }
        if digit_run(s) < s.len() {
            assert(s[digit_run(s) as int] == r[digit_run(r) as int]);
        }
    }
}

proof fn lemma_token_run_bounds(s: Seq<u8>, t: u8)
    ensures
        token_run(s, t) <= s.len(),
        forall|j: int| 0 <= j < token_run(s, t) ==> #[trigger] s[j] != t,
        token_run(s, t) < s.len() ==> s[token_run(s, t) as int] == t,
    decreases s.len(),
{
    if s.len() > 0 && s[0] != t {
        let r = s.drop_first();
        lemma_token_run_bounds(r, t);
        assert forall|j: int| 0 <= j < token_run(s, t) implies #[trigger] s[j] != t by {
            if j > 0 {
                assert(s[j] == r[j - 1]);
            }
        }
        if token_run(s, t) < s.len() {
            assert(s[token_run(s, t) as int] == r[token_run(r, t) as int]);
        }
    }
}

proof fn lemma_uint_extend(s: Seq<u8>, x: Seq<u8>, t: u8)
    requires
        uint_field(s, t) is Ok,
    ensures
        uint_field(s + x, t) == uint_field(s, t),
{
    lemma_digit_run_bounds(s);
    let k = digit_run(s) as int;
    let e = s + x;
    assert forall|j: int| 0 <= j < k implies is_digit(#[trigger] e[j]) by {
        assert(e[j] == s[j]);
    }
    assert(e[k] == s[k]);
    lemma_digit_run(e, k);
    assert(e.subrange(0, k) =~= s.subrange(0, k));
}

proof fn lemma_text_extend(s: Seq<u8>, x: Seq<u8>, t: u8)
    requires
        text_field(s, t) is Ok,
    ensures
        text_field(s + x, t) == text_field(s, t),
{
    lemma_token_run_bounds(s, t);
    let k = token_run(s, t) as int;
    let e = s + x;
    assert forall|j: int| 0 <= j < k implies #[trigger] e[j] != t by {
        assert(e[j] == s[j]);
    }
    assert(e[k] == s[k]);
    lemma_token_run(e, t, k);
    assert(e.subrange(0, k) =~= s.subrange(0, k));
}

proof fn lemma_header_extend(s: Seq<u8>, x: Seq<u8>)
    requires
        header_field(s) is Ok,
    ensures
        header_field(s + x) == header_field(s),
{
    lemma_uint_extend(s, x, 32);
    let k = uint_field(s, 32)->Ok_0.0;
    assert((s + x).subrange(k, (s + x).len() as int) =~= s.subrange(k, s.len() as int) + x);
    lemma_uint_extend(s.subrange(k, s.len() as int), x, 10);
}

proof fn lemma_record_extend(s: Seq<u8>, x: Seq<u8>, dim: u32)
    requires
        record_field(s, dim) is Ok,
    ensures
        record_field(s + x, dim) == record_field(s, dim),
{
    lemma_text_extend(s, x, 32);
    let k = text_field(s, 32)->Ok_0.0;
    let e = s + x;
    assert forall|j: int| 0 <= j < dim implies #[trigger] le_word(e, k + 4 * j) == le_word(s, k + 4 * j) by {
        assert(k + 4 * j + 3 < s.len()) by (nonlinear_arith)
            requires
                0 <= j < dim,
                s.len() - k >= 4 * dim,
        ;
    }
    assert(vector_at(e, k, dim as nat) =~= vector_at(s, k, dim as nat));
}

proof fn lemma_records_extend(s: Seq<u8>, x: Seq<u8>, start: int, n: nat, dim: u32)
    requires
        records_field(s, start, n, dim) is Ok,
        0 <= start <= s.len(),
    ensures
        records_field(s + x, start, n, dim) == records_field(s, start, n, dim),
        start <= records_field(s, start, n, dim)->Ok_0.0 <= s.len(),
    decreases n,
{
    if n > 0 {
        let m = (n - 1) as nat;
        lemma_records_extend(s, x, start, m, dim);
        let p = records_field(s, start, m, dim)->Ok_0.0;
        let e = s + x;
        assert(e.subrange(p, e.len() as int) =~= s.subrange(p, s.len() as int) + x);
        lemma_record_extend(s.subrange(p, s.len() as int), x, dim);
        lemma_token_run_bounds(s.subrange(p, s.len() as int), 32);
    }
}

/// A well-formed file followed by any further bytes is a length mismatch at
/// the first of them.
pub proof fn lemma_trailing_bytes(s: Seq<u8>, x: Seq<u8>)
    requires
        file_contents(s) is Ok,
        x.len() > 0,
    ensures
        file_contents(s + x) == Err::<(int, int, Seq<(Seq<u8>, Seq<u32>)>), (int, FormatError)>(
            (s.len() as int, FormatError::LengthMismatch),
        ),
{
    lemma_header_extend(s, x);
    let (k, c, d) = header_field(s)->Ok_0;
    lemma_digit_run_bounds(s);
    lemma_digit_run_bounds(s.subrange(uint_field(s, 32)->Ok_0.0, s.len() as int));
    lemma_records_extend(s, x, k, c as nat, d as u32);
}

proof fn lemma_digits_nonnegative(s: Seq<u8>)
    requires
        forall|j: int| 0 <= j < s.len() ==> is_digit(#[trigger] s[j]),
    ensures
        digits_value(s) >= 0,
    decreases s.len(),
{
    if s.len() > 0 {
        let r = s.drop_last();
        assert forall|j: int| 0 <= j < r.len() implies is_digit(#[trigger] r[j]) by {
            assert(r[j] == s[j]);
        }
        lemma_digits_nonnegative(r);
        assert(is_digit(s[s.len() - 1]));
    }
}

proof fn lemma_records_dimension(s: Seq<u8>, start: int, n: nat, dim: u32)
    requires
        records_field(s, start, n, dim) is Ok,
    ensures
        forall|i: int| 0 <= i < records_field(s, start, n, dim)->Ok_0.1.len()
            ==> (#[trigger] records_field(s, start, n, dim)->Ok_0.1[i]).1.len() == dim,
    decreases n,
{
    if n > 0 {
        lemma_records_dimension(s, start, (n - 1) as nat, dim);
    }
}

proof fn lemma_table_dimension(rs: Seq<(Seq<u8>, Seq<u32>)>, dim: nat)
    requires
        forall|i: int| 0 <= i < rs.len() ==> (#[trigger] rs[i]).1.len() == dim,
    ensures
        forall|k: Seq<char>| #[trigger] table_of(rs).contains_key(k) ==> table_of(rs)[k].len() == dim,
    decreases rs.len(),
{
    if rs.len() > 0 {
        let r = rs.drop_last();
        assert forall|i: int| 0 <= i < r.len() implies (#[trigger] r[i]).1.len() == dim by {
            assert(r[i] == rs[i]);
        }
        lemma_table_dimension(r, dim);
        assert(rs.last() == rs[rs.len() - 1]);
        assert forall|k: Seq<char>| #[trigger] table_of(rs).contains_key(k) implies table_of(rs)[k].len()
            == dim by {
            if k != lossy_text_of(rs.last().0) {
                assert(table_of(r).contains_key(k));
            }
        }
    }
}

/// Every vector of a decoded file's table has as many components as the
/// header's dimension.
pub proof fn lemma_vectors_have_dimension(s: Seq<u8>)
    requires
        file_contents(s) is Ok,
    ensures
        forall|k: Seq<char>| #[trigger] table_of(file_contents(s)->Ok_0.2).contains_key(k)
            ==> table_of(file_contents(s)->Ok_0.2)[k].len() == file_contents(s)->Ok_0.1,
{
    let (k, c, d) = header_field(s)->Ok_0;
    lemma_records_dimension(s, k, c as nat, d as u32);
    let rest = s.subrange(uint_field(s, 32)->Ok_0.0, s.len() as int);
    lemma_digit_run_bounds(rest);
    lemma_digits_nonnegative(rest.subrange(0, digit_run(rest) as int));
    lemma_table_dimension(file_contents(s)->Ok_0.2, d as nat);
}

} // verus!
