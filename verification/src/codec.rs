//! Wire framing codec.
//!
//! Every message on the command channel is preceded by a header of exactly
//! [`HEADER_SIZE`] bytes: the ASCII decimal representation of the payload's
//! byte length, left-justified, padded to the full width with ASCII spaces.
//! The payload of exactly that many bytes follows back-to-back on the same
//! stream.  Decoding trims the trailing spaces and parses the rest as an
//! unsigned integer; an all-zero header window means "no message yet", and
//! anything else that does not parse is a framing error that discards the
//! single message without closing the connection.

use vstd::prelude::*;
use vstd::slice::slice_index_get;

verus! {

/// Width in bytes of the fixed length header.
pub const HEADER_SIZE: usize = 64;

/// ASCII code of the digit `d`.
pub open spec fn digit_byte(d: nat) -> u8 {
    (48 + d) as u8
}

/// Is `b` the ASCII code of a decimal digit?
pub open spec fn is_digit_byte(b: u8) -> bool {
    48 <= b <= 57
}

/// The ASCII decimal representation of `n`, most significant digit first,
/// with no sign and no leading zeros (except for `n == 0` itself).
pub open spec fn decimal_digits(n: nat) -> Seq<u8>
    decreases n,
{
    if n < 10 {
        seq![digit_byte(n)]
    } else {
        decimal_digits(n / 10).push(digit_byte(n % 10))
    }
}

/// The value of a sequence of ASCII digits, read as a decimal number.
pub open spec fn digits_value(s: Seq<u8>) -> nat
    decreases s.len(),
{
    if s.len() == 0 {
        0
    } else {
        digits_value(s.drop_last()) * 10 + ((s.last() - 48) as nat)
    }
}

/// Does `s` consist of decimal digits only?
pub open spec fn all_digit_bytes(s: Seq<u8>) -> bool {
    forall|i: int| 0 <= i < s.len() ==> is_digit_byte(#[trigger] s[i])
}

/// Is every byte of `s` zero?  A header window in this state means that no
/// message has arrived yet.
pub open spec fn all_zero(s: Seq<u8>) -> bool {
    forall|i: int| 0 <= i < s.len() ==> #[trigger] s[i] == 0
}

/// `s` with its trailing ASCII spaces removed.
pub open spec fn trim_trailing_spaces(s: Seq<u8>) -> Seq<u8>
    decreases s.len(),
{
    if s.len() > 0 && s.last() == 32 {
        trim_trailing_spaces(s.drop_last())
    } else {
        s
    }
}

/// The header for a payload of `n` bytes: the decimal digits of `n`,
/// left-justified and padded with spaces to [`HEADER_SIZE`] bytes.
pub open spec fn spec_header(n: nat) -> Seq<u8> {
    decimal_digits(n) + Seq::new((HEADER_SIZE - decimal_digits(n).len()) as nat, |i: int| 32u8)
}

/// Outcome of decoding one header window.
#[derive(Debug, Clone, Copy, PartialEq, Eq, Structural)]
pub enum HeaderStatus {
    /// The window was all zero bytes: no message has arrived; read again.
    Empty,
    /// The window did not hold a space-padded decimal number: a framing
    /// error; the message is discarded and the connection stays open.
    Invalid,
    /// A well-formed header announcing a payload of exactly this many bytes.
    Length(usize),
}

/// What decoding a header window yields.
pub open spec fn spec_decode_header(s: Seq<u8>) -> HeaderStatus {
    if all_zero(s) {
        HeaderStatus::Empty
    } else {
        let t = trim_trailing_spaces(s);
        if t.len() > 0 && all_digit_bytes(t) && digits_value(t) <= usize::MAX {
            HeaderStatus::Length(digits_value(t) as usize)
        } else {
            HeaderStatus::Invalid
        }
    }
}

/// Is the buffer in its empty state, meaning that no message was read into
/// it?
pub fn is_buffer_empty(buffer: &[u8]) -> (r: bool)
    ensures
        r == all_zero(buffer@),
{
    let n = buffer.len();
    let mut i: usize = 0;
    while i < n
        invariant
            0 <= i <= n,
            n == buffer@.len(),
            forall|j: int| 0 <= j < i ==> #[trigger] buffer@[j] == 0,
        decreases n - i,
    {
        if *slice_index_get(buffer, i) != 0 {
            return false;
        }
        i += 1;
    }
    true
}

/// `10^k`.
pub open spec fn pow10(k: nat) -> nat
    decreases k,
{
    if k == 0 {
        1
    } else {
        10 * pow10((k - 1) as nat)
    }
}

/// Every number a 64-bit machine word can hold has at most 20 decimal
/// digits.
pub proof fn lemma_u64_fits_twenty_digits()
    ensures
        (u64::MAX as nat) < pow10(20),
{
    reveal_with_fuel(pow10, 21);
    assert((u64::MAX as nat) < pow10(20));
}

/// A number below `10^k` needs at most `k` decimal digits.
pub proof fn lemma_decimal_digits_len(n: nat, k: nat)
    requires
        1 <= k,
        n < pow10(k),
    ensures
        decimal_digits(n).len() <= k,
    decreases k,
{
    if n < 10 {
    } else {
        assert(pow10(k) == 10 * pow10((k - 1) as nat));
        if k == 1 {
            assert(pow10(1) == 10) by {
                reveal_with_fuel(pow10, 2);
            }
            assert(false);
        }
        assert(n / 10 < pow10((k - 1) as nat)) by (nonlinear_arith)
            requires
                n < 10 * pow10((k - 1) as nat),
        ;
        lemma_decimal_digits_len(n / 10, (k - 1) as nat);
    }
}

/// Reading back the decimal representation of `n` yields `n` again, and the
/// representation consists of at least one digit and of digits only.
pub proof fn lemma_digits_value_inverse(n: nat)
    ensures
        digits_value(decimal_digits(n)) == n,
        all_digit_bytes(decimal_digits(n)),
        decimal_digits(n).len() >= 1,
    decreases n,
{
    if n < 10 {
        let s = decimal_digits(n);
        assert(s.drop_last() =~= Seq::<u8>::empty());
        assert(digits_value(Seq::<u8>::empty()) == 0);
        assert(s.last() == digit_byte(n));
    } else {
        lemma_digits_value_inverse(n / 10);
        let s = decimal_digits(n);
        assert(s.drop_last() =~= decimal_digits(n / 10));
        assert(s.last() == digit_byte(n % 10));
        assert(digits_value(s) == (n / 10) * 10 + (n % 10));
        assert(forall|i: int|
            0 <= i < s.len() ==> is_digit_byte(#[trigger] s[i]) || i == s.len() - 1);
    }
}

/// Trimming ignores a suffix of spaces: if everything from `end` on is a
/// space, trimming `s` and trimming its prefix up to `end` agree.
proof fn lemma_trim_spaces_suffix(s: Seq<u8>, end: int)
    requires
        0 <= end <= s.len(),
        forall|j: int| end <= j < s.len() ==> #[trigger] s[j] == 32,
    ensures
        trim_trailing_spaces(s) == trim_trailing_spaces(s.take(end)),
    decreases s.len() - end,
{
    if end == s.len() {
        assert(s.take(end) =~= s);
    } else {
        assert(s.last() == 32);
        lemma_trim_spaces_suffix(s.drop_last(), end);
        assert(s.drop_last().take(end) =~= s.take(end));
    }
}

/// A longer digit string never has a smaller value: the value of a prefix is
/// a lower bound for the value of the whole string.
proof fn lemma_digits_value_prefix_le(s: Seq<u8>, m: int)
    requires
        0 <= m <= s.len(),
    ensures
        digits_value(s.take(m)) <= digits_value(s),
    decreases s.len() - m,
{
    if m == s.len() {
        assert(s.take(m) =~= s);
    } else {
        lemma_digits_value_prefix_le(s, m + 1);
        assert(s.take(m + 1).drop_last() =~= s.take(m));
        assert(digits_value(s.take(m + 1)) == digits_value(s.take(m)) * 10 + ((s.take(
            m + 1,
        ).last() - 48) as nat));
    }
}

/// Encode the length header for a payload of `len` bytes: the decimal digits
/// of `len`, left-justified, padded with ASCII spaces to [`HEADER_SIZE`]
/// bytes.
pub fn encode_header(len: usize) -> (h: Vec<u8>)
    ensures
        h@ == spec_header(len as nat),
        h@.len() == HEADER_SIZE,
{
    proof {
        assert(usize::MAX as nat <= u64::MAX as nat);
        lemma_u64_fits_twenty_digits();
        lemma_decimal_digits_len(len as nat, 20);
    }
    // Count the digits of `len`.
    let mut k: usize = 1;
    let mut m: usize = len;
    while m >= 10
        invariant
            1 <= k,
            decimal_digits(len as nat).len() == decimal_digits(m as nat).len() + k - 1,
            decimal_digits(len as nat).len() <= 20,
            k <= decimal_digits(len as nat).len(),
        decreases m,
    {
        proof {
            assert(decimal_digits((m / 10) as nat).len() >= 1);
        }
        m = m / 10;
        k = k + 1;
    }
    assert(decimal_digits(m as nat).len() == 1);
    assert(k == decimal_digits(len as nat).len());
    assert(k <= 20);

    // Fill the digits from the least significant end, then the space padding
    // is already in place.
    let mut h: Vec<u8> = vec![32u8; HEADER_SIZE];
    let mut i: usize = k;
    let mut m: usize = len;
    while i > 0
        invariant
            i <= k,
            k == decimal_digits(len as nat).len(),
            k <= 20,
            h@.len() == HEADER_SIZE,
            i > 0 ==> decimal_digits(m as nat) == decimal_digits(len as nat).take(i as int),
            forall|j: int| i <= j < k ==> h@[j] == decimal_digits(len as nat)[j],
            forall|j: int| k <= j < HEADER_SIZE ==> h@[j] == 32,
        decreases i,
    {
        proof {
            assert(decimal_digits(m as nat).len() == i);
            if m < 10 {
                assert(decimal_digits(m as nat).last() == digit_byte(m as nat % 10));
            }
        }
        i = i - 1;
        h[i] = 48 + (m % 10) as u8;
        proof {
            assert(decimal_digits(len as nat)[i as int] == decimal_digits(
                len as nat,
            ).take(i + 1).last());
            if i > 0 {
                assert(m >= 10);
                assert(decimal_digits((m / 10) as nat) =~= decimal_digits(
                    len as nat,
                ).take(i + 1).drop_last());
                assert(decimal_digits(len as nat).take(i + 1).drop_last() =~= decimal_digits(
                    len as nat,
                ).take(i as int));
            }
        }
        m = m / 10;
    }
    proof {
        assert(h@ =~= spec_header(len as nat));
    }
    h
}

/// Decode one header window of [`HEADER_SIZE`] bytes.
///
/// An all-zero window means no message has arrived.  Otherwise the trailing
/// spaces are trimmed and the rest must be the decimal digits of the payload
/// length; anything else, including a length beyond what this machine can
/// address, is a framing error.
pub fn decode_header(buffer: &[u8]) -> (r: HeaderStatus)
    requires
        buffer@.len() == HEADER_SIZE,
    ensures
        r == spec_decode_header(buffer@),
{
    if is_buffer_empty(buffer) {
        return HeaderStatus::Empty;
    }
    // Find where the trailing run of spaces begins.
    let mut end: usize = buffer.len();
    while end > 0 && *slice_index_get(buffer, end - 1) == 32
        invariant
            0 <= end <= HEADER_SIZE,
            buffer@.len() == HEADER_SIZE,
            forall|j: int| end <= j < HEADER_SIZE ==> #[trigger] buffer@[j] == 32,
        decreases end,
    {
        end = end - 1;
    }
    proof {
        lemma_trim_spaces_suffix(buffer@, end as int);
        if end > 0 {
            assert(buffer@.take(end as int).last() == buffer@[end - 1]);
        }
        assert(trim_trailing_spaces(buffer@) == buffer@.take(end as int));
    }
    let ghost t = trim_trailing_spaces(buffer@);
    if end == 0 {
        // Nothing but spaces: an empty length field is a framing error.
        return HeaderStatus::Invalid;
    }
    // Parse the digits, watching for values beyond the machine's reach.
    let umax: u128 = usize::MAX as u128;
    let mut acc: u128 = 0;
    let mut i: usize = 0;
    while i < end
        invariant
            0 <= i <= end <= HEADER_SIZE,
            buffer@.len() == HEADER_SIZE,
            t == buffer@.take(end as int),
            umax == usize::MAX as u128,
            !all_zero(buffer@),
            trim_trailing_spaces(buffer@) == t,
            all_digit_bytes(buffer@.take(i as int)),
            acc == digits_value(buffer@.take(i as int)),
            acc <= umax,
        decreases end - i,
    {
        let b = *slice_index_get(buffer, i);
        proof {
            assert(t[i as int] == buffer@[i as int]);
        }
        if b < 48 || b > 57 {
            assert(!all_digit_bytes(t));
            return HeaderStatus::Invalid;
        }
        proof {
            assert(buffer@.take(i + 1).drop_last() =~= buffer@.take(i as int));
            assert(buffer@.take(i + 1).last() == b);
            assert(forall|j: int|
                0 <= j < i + 1 ==> is_digit_byte(#[trigger] buffer@.take(i + 1)[j]));
        }
        acc = acc * 10 + (b - 48) as u128;
        if acc > umax {
            proof {
                lemma_digits_value_prefix_le(t, i + 1);
                assert(t.take(i + 1) =~= buffer@.take(i + 1));
                assert(digits_value(t) > usize::MAX);
            }
            return HeaderStatus::Invalid;
        }
        i = i + 1;
    }
    proof {
        assert(buffer@.take(end as int) =~= t);
        assert(acc as usize as u128 == acc);
    }
    HeaderStatus::Length(acc as usize)
}

/// Round trip of the framing codec: a frame built from a payload of any
/// encodable length decodes back to exactly that payload.  The header is the
/// frame's first [`HEADER_SIZE`] bytes and announces the payload's length;
/// the rest of the frame is the payload itself, unchanged.
pub proof fn lemma_header_round_trip(payload: Seq<u8>)
    requires
        payload.len() <= usize::MAX,
    ensures
        ({
            let frame = spec_header(payload.len()) + payload;
            &&& frame.take(HEADER_SIZE as int) == spec_header(payload.len())
            &&& spec_decode_header(frame.take(HEADER_SIZE as int)) == HeaderStatus::Length(
                payload.len() as usize,
            )
            &&& frame.skip(HEADER_SIZE as int) == payload
        }),
{
    let n = payload.len();
    assert(usize::MAX as nat <= u64::MAX as nat);
    lemma_u64_fits_twenty_digits();
    lemma_decimal_digits_len(n, 20);
    lemma_digits_value_inverse(n);
    let h = spec_header(n);
    let d = decimal_digits(n);
    assert(h.len() == HEADER_SIZE);
    let frame = h + payload;
    assert(frame.take(HEADER_SIZE as int) =~= h);
    assert(frame.skip(HEADER_SIZE as int) =~= payload);
    // The header is not all zero: its first byte is a digit.
    assert(h[0] == d[0]);
    assert(is_digit_byte(d[0]));
    assert(!all_zero(h));
    // Trimming the padding leaves exactly the digits.
    assert(forall|j: int| d.len() <= j < h.len() ==> #[trigger] h[j] == 32);
    lemma_trim_spaces_suffix(h, d.len() as int);
    assert(h.take(d.len() as int) =~= d);
    assert(is_digit_byte(d.last()));
    assert(trim_trailing_spaces(h) == d);
}

/// Reset the buffer to its empty state, all bytes zero.
pub fn clear_buffer(buffer: &mut Vec<u8>)
    ensures
        final(buffer)@.len() == old(buffer)@.len(),
        all_zero(final(buffer)@),
{
    let n = buffer.len();
    let mut i: usize = 0;
    while i < n
        invariant
            0 <= i <= n,
            n == buffer@.len(),
            forall|j: int| 0 <= j < i ==> #[trigger] buffer@[j] == 0,
        decreases n - i,
    {
        buffer[i] = 0;
        i += 1;
    }
}

} // verus!
