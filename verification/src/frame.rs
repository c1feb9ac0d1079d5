//! Frames of a stream that carries several artifacts: a line with the
//! length of the payload in decimal digits, then the payload.

use crate::cursor::find_byte;
use vstd::prelude::*;

verus! {

/// The line that should give the length of a payload does not.
#[derive(Debug, Clone, Copy, PartialEq, Eq, Structural)]
pub struct FrameError {}

/// The byte is a decimal digit.
pub open spec fn is_digit(b: u8) -> bool {
    48 <= b <= 57
}

/// Every byte is a decimal digit.
pub open spec fn all_digits(s: Seq<u8>) -> bool {
    forall|i: int| 0 <= i < s.len() ==> is_digit(#[trigger] s[i])
}

/// The number that the decimal digits give.
pub open spec fn dec_value(s: Seq<u8>) -> int
    decreases s.len(),
{
    if s.len() == 0 {
        0
    } else {
        10 * dec_value(s.drop_last()) + (s.last() - 48)
    }
}

/// The decimal digits of a number, without leading zeros.
pub open spec fn dec_digits(n: int) -> Seq<u8>
    decreases n,
{
    if n < 10 {
        seq![(48 + n) as u8]
    } else {
        dec_digits(n / 10).push((48 + n % 10) as u8)
    }
}

/// The place of the first line feed of `s` at or after `q`, or the length of
/// `s` when there is none.
pub open spec fn first_lf(s: Seq<u8>, q: int) -> int
    decreases s.len() - q,
{
    if q < 0 || q >= s.len() {
        s.len() as int
    } else if s[q] == 10 {
        q
    } else {
        first_lf(s, q + 1)
    }
}

/// The length of `s` without the carriage returns at its end.
pub open spec fn trimmed_len(s: Seq<u8>) -> int
    decreases s.len(),
{
    if s.len() > 0 && s.last() == 13 {
        trimmed_len(s.drop_last())
    } else {
        s.len() as int
    }
}

/// What the length line at the start of `s` says: the length of the line
/// with its line feed, and the length of the payload. The line holds
/// decimal digits, then carriage returns if any, then the line feed.
pub open spec fn length_line(s: Seq<u8>) -> Result<(int, int), FrameError> {
    let lf = first_lf(s, 0);
    let digits = s.subrange(0, trimmed_len(s.subrange(0, lf)));
    if lf >= s.len() || digits.len() == 0 || !all_digits(digits) || dec_value(digits) > u64::MAX {
        Err(FrameError {  })
    } else {
        Ok((lf + 1, dec_value(digits)))
    }
}

/// The first line feed from `q` on is at `z` when no byte before `z` is one
/// and `z` is the end or holds one.
pub proof fn lemma_first_lf(s: Seq<u8>, q: int, z: int)
    requires
        0 <= q <= z <= s.len(),
        forall|j: int| q <= j < z ==> s[j] != 10,
        z < s.len() ==> s[z] == 10,
    ensures
        first_lf(s, q) == z,
    decreases z - q,
{
    if q < z {
        lemma_first_lf(s, q + 1, z);
    }
}

/// The digits of a start of a number give no more than all of them.
pub proof fn lemma_dec_value_grows(s: Seq<u8>, k: int)
    requires
        all_digits(s),
        0 <= k <= s.len(),
    ensures
        0 <= dec_value(s.subrange(0, k)) <= dec_value(s),
    decreases s.len() - k,
{
    if k < s.len() {
        lemma_dec_value_grows(s, k + 1);
        assert(s.subrange(0, k + 1).drop_last() =~= s.subrange(0, k));
        lemma_dec_value_nonneg(s.subrange(0, k));
    } else {
        assert(s.subrange(0, k) =~= s);
        lemma_dec_value_nonneg(s);
    }
}

/// Digits give a number that is not negative.
pub proof fn lemma_dec_value_nonneg(s: Seq<u8>)
    requires
        all_digits(s),
    ensures
        0 <= dec_value(s),
    decreases s.len(),
{
    if s.len() > 0 {
        lemma_dec_value_nonneg(s.drop_last());
    }
}

/// Reads the length line at the start of `buffer`: returns the length of
/// the line with its line feed, and the length of the payload.
pub fn parseLengthLine(buffer: &[u8]) -> (r: Result<(usize, u64), FrameError>)
    ensures
        match r {
            Ok((line, size)) => length_line(buffer@) == Ok::<(int, int), FrameError>(
                (line as int, size as int),
            ),
            Err(e) => length_line(buffer@) is Err,
        },
{
    let ghost s = buffer@;
    let lf = match find_byte(10u8, buffer) {
        None => {
            proof {
                lemma_first_lf(s, 0, s.len() as int);
            }
            return Err(FrameError {  });
        },
        Some(i) => i,
    };
    proof {
        lemma_first_lf(s, 0, lf as int);
    }
    let ghost line = s.subrange(0, lf as int);
    let mut end: usize = lf;
    while end > 0 && buffer[end - 1] == 13
        invariant
            end <= lf < buffer@.len(),
            s == buffer@,
            line == s.subrange(0, lf as int),
            trimmed_len(line) == trimmed_len(s.subrange(0, end as int)),
        decreases end,
    {
        assert(s.subrange(0, end as int).drop_last() =~= s.subrange(0, end - 1));
        end = end - 1;
    }
    let ghost digits = s.subrange(0, end as int);
    assert(trimmed_len(digits) == end);
    if end == 0 {
        return Err(FrameError {  });
    }
    let mut value: u64 = 0;
    let mut k: usize = 0;
    while k < end
        invariant
            k <= end <= lf < buffer@.len(),
            s == buffer@,
            first_lf(s, 0) == lf,
            trimmed_len(s.subrange(0, lf as int)) == end,
            end > 0,
            digits == s.subrange(0, end as int),
            all_digits(digits.subrange(0, k as int)),
            value == dec_value(digits.subrange(0, k as int)),
        decreases end - k,
    {
        let b = buffer[k];
        if b < 48 || b > 57 {
            assert(!is_digit(digits[k as int]));
            return Err(FrameError {  });
        }
        let d = (b - 48) as u64;
        proof {
            assert(digits.subrange(0, k + 1).drop_last() =~= digits.subrange(0, k as int));
            assert(digits.subrange(0, k + 1).last() == b);
            assert(all_digits(digits.subrange(0, k + 1))) by {
                assert forall|i: int| 0 <= i < k + 1 implies is_digit(
                    #[trigger] digits.subrange(0, k + 1)[i],
                ) by {
                    if i < k {
                        assert(digits.subrange(0, k as int)[i] == digits.subrange(0, k + 1)[i]);
                    }
                }
            }
        }
        if value > (u64::MAX - d) / 10 {
            proof {
                // the digits so far give too much already
                let rest = digits.subrange(0, k + 1);
                assert(dec_value(rest) == 10 * value + d);
                assert(10 * value + d > u64::MAX);
                if all_digits(digits) {
                    lemma_dec_value_grows(digits, k + 1);
                }
            }
            return Err(FrameError {  });
        }
        value = value * 10 + d;
        k = k + 1;
    }
    assert(digits.subrange(0, end as int) =~= digits);
    Ok((lf + 1, value))
}

/// Appends the decimal digits of `n`.
pub fn writeDigits(out: &mut Vec<u8>, n: u64)
    ensures
        final(out)@ == old(out)@ + dec_digits(n as int),
    decreases n,
{
    if n >= 10 {
        writeDigits(out, n / 10);
    }
    out.push((48 + n % 10) as u8);
    assert(out@ =~= old(out)@ + dec_digits(n as int));
}

/// Appends the length line for a payload of `size` bytes: the decimal digits
/// and a line feed.
pub fn writeLengthLine(out: &mut Vec<u8>, size: u64)
    ensures
        final(out)@ == old(out)@ + dec_digits(size as int) + seq![10u8],
{
    writeDigits(out, size);
    out.push(10u8);
    assert(out@ =~= old(out)@ + dec_digits(size as int) + seq![10u8]);
}

/// The digits of a number are digits, at least one, and give the number.
pub proof fn lemma_dec_digits(n: int)
    requires
        0 <= n,
    ensures
        dec_digits(n).len() >= 1,
        all_digits(dec_digits(n)),
        dec_value(dec_digits(n)) == n,
    decreases n,
{
    let d = dec_digits(n);
    if n >= 10 {
        lemma_dec_digits(n / 10);
        assert(d.drop_last() =~= dec_digits(n / 10));
        assert(d.last() == 48 + n % 10);
        assert(dec_value(d) == 10 * (n / 10) + n % 10);
        assert forall|i: int| 0 <= i < d.len() implies is_digit(#[trigger] d[i]) by {
            if i < d.len() - 1 {
                assert(d[i] == dec_digits(n / 10)[i]);
            }
        }
    } else {
        assert(d.drop_last() =~= Seq::<u8>::empty());
        assert(dec_value(d.drop_last()) == 0);
        assert(d.last() == 48 + n);
    }
}

/// A length line that was written is read as it was written, whatever
/// follows it.
pub proof fn lemma_length_line(n: int, rest: Seq<u8>)
    requires
        0 <= n <= u64::MAX,
    ensures
        length_line(dec_digits(n) + seq![10u8] + rest) == Ok::<(int, int), FrameError>(
            ((dec_digits(n).len() + 1) as int, n),
        ),
{
    let d = dec_digits(n);
    let s = d + seq![10u8] + rest;
    lemma_dec_digits(n);
    assert forall|j: int| 0 <= j < d.len() implies s[j] != 10 by {
        assert(is_digit(d[j]));
    }
    lemma_first_lf(s, 0, d.len() as int);
    assert(s.subrange(0, d.len() as int) =~= d);
    assert(trimmed_len(d) == d.len()) by {
        assert(is_digit(d.last()));
    }
}

/// The frame at the start of `s`: its payload and what follows the frame.
/// There is none when the length line gives no length or when the bytes
/// after the line are fewer than it says.
pub open spec fn frame(s: Seq<u8>) -> Result<(Seq<u8>, Seq<u8>), FrameError> {
    match length_line(s) {
        Err(e) => Err(e),
        Ok((line, size)) => if line + size > s.len() {
            Err(FrameError {  })
        } else {
            Ok((s.subrange(line, line + size), s.subrange(line + size, s.len() as int)))
        },
    }
}

/// Takes the frame at the start of `buffer` apart: returns its payload,
/// exactly as many bytes as the length line says, and what follows it.
pub fn readFrame<'a>(buffer: &'a [u8]) -> (r: Result<(&'a [u8], &'a [u8]), FrameError>)
    ensures
        match r {
            Ok((payload, rest)) => frame(buffer@) == Ok::<(Seq<u8>, Seq<u8>), FrameError>(
                (payload@, rest@),
            ),
            Err(e) => frame(buffer@) is Err,
        },
{
    let (line, size) = match parseLengthLine(buffer) {
        Err(e) => {
            return Err(e);
        },
        Ok(r) => r,
    };
    let len = buffer.len();
    if size > (len - line) as u64 {
        return Err(FrameError {  });
    }
    let end = line + size as usize;
    Ok((&buffer[line..end], &buffer[end..len]))
}

/// Appends a frame: the length line of the payload and the payload.
pub fn writeFrame(out: &mut Vec<u8>, payload: &[u8])
    ensures
        final(out)@ == old(out)@ + dec_digits(payload@.len() as int) + seq![10u8] + payload@,
{
    writeLengthLine(out, payload.len() as u64);
    crate::cursor::write_all(out, payload);
}

/// A frame that was written is read as it was written, whatever follows
/// it.
pub proof fn lemma_frame(payload: Seq<u8>, rest: Seq<u8>)
    requires
        payload.len() <= u64::MAX,
    ensures
        frame(dec_digits(payload.len() as int) + seq![10u8] + payload + rest) == Ok::<
            (Seq<u8>, Seq<u8>),
            FrameError,
        >((payload, rest)),
{
    let n = payload.len() as int;
    let head = dec_digits(n) + seq![10u8];
    let s = head + payload + rest;
    lemma_length_line(n, payload + rest);
    assert(s =~= dec_digits(n) + seq![10u8] + (payload + rest));
    assert(s.subrange(head.len() as int, head.len() + n) =~= payload);
    assert(s.subrange(head.len() + n, s.len() as int) =~= rest);
}

} // verus!
