//! Configuration checks: parsing and validating the sequence length that the
//! command line hands in. The length must be a decimal number between
//! `SEQ_MIN` and `SEQ_MAX`.

use vstd::prelude::*;
use crate::text::chars_of;
use crate::symbols::lemma_char_bound;

verus! {

pub const SEQ_MIN: u8 = 1;

pub const SEQ_MAX: u8 = 10;

/// Why a sequence-length argument was rejected.
#[derive(Debug, Clone, Copy, PartialEq, Eq, Structural)]
pub enum SeqLenError {
    /// Not a decimal numeral, or too large for the numeric type.
    NotANumber,
    /// Zero: a sequence length must be positive.
    Zero,
    /// Positive, but above the supported range.
    OutOfRange,
}

pub open spec fn is_digit_char(c: char) -> bool {
    48 <= c as int && c as int <= 57
}

/// The numeral after an optional leading plus sign.
pub open spec fn numeral_of(s: Seq<char>) -> Seq<char> {
    if s.len() > 0 && s[0] == '+' {
        s.drop_first()
    } else {
        s
    }
}

/// Value of a digit string, most significant digit first.
pub open spec fn digits_val(s: Seq<char>) -> int
    decreases s.len(),
{
    if s.len() == 0 {
        0
    } else {
        digits_val(s.drop_last()) * 10 + (s.last() as int - 48)
    }
}

pub open spec fn all_digits(s: Seq<char>) -> bool {
    forall|i: int| 0 <= i < s.len() ==> is_digit_char(#[trigger] s[i])
}

/// The strings `u8::from_str` accepts: an optional plus sign, then one or
/// more digits, with a value that fits.
pub open spec fn parses_to_u8(s: Seq<char>) -> bool {
    numeral_of(s).len() >= 1 && all_digits(numeral_of(s)) && digits_val(numeral_of(s)) <= 255
}

pub proof fn lemma_digits_nonneg(s: Seq<char>)
    requires
        all_digits(s),
    ensures
        digits_val(s) >= 0,
    decreases s.len(),
{
    if s.len() > 0 {
        assert(all_digits(s.drop_last())) by {
            assert(forall|i: int|
                0 <= i < s.len() - 1 ==> #[trigger] s.drop_last()[i] == s[i]);
        }
        lemma_digits_nonneg(s.drop_last());
        assert(s.last() == s[s.len() - 1]);
        assert(is_digit_char(s[s.len() - 1]));
        assert(digits_val(s) == digits_val(s.drop_last()) * 10 + (s.last() as int - 48));
    }
}

/// The value of a digit string never falls below the value of any prefix.
pub proof fn lemma_digits_prefix_le(s: Seq<char>, k: int)
    requires
        all_digits(s),
        0 <= k <= s.len(),
    ensures
        digits_val(s.take(k)) <= digits_val(s),
    decreases s.len() - k,
{
    if k < s.len() {
        lemma_digits_prefix_le(s, k + 1);
        assert(s.take(k + 1).drop_last() =~= s.take(k));
        assert(s.take(k + 1).last() == s[k]);
        assert(all_digits(s.take(k))) by {
            assert(forall|i: int| 0 <= i < k ==> #[trigger] s.take(k)[i] == s[i]);
        }
        lemma_digits_nonneg(s.take(k));
        assert(is_digit_char(s[k]));
        assert(digits_val(s.take(k + 1)) == digits_val(s.take(k)) * 10 + (s[k] as int - 48));
    } else {
        assert(s.take(k) =~= s);
    }
}

/// Parses a sequence length and holds it to the supported range: `Ok` exactly
/// on numerals from `SEQ_MIN` to `SEQ_MAX`, and for each rejected input the
/// error names what was wrong.
pub fn seq_in_range(s: &str) -> (r: Result<u8, SeqLenError>)
    ensures
        !parses_to_u8(s@) ==> r == Err::<u8, SeqLenError>(SeqLenError::NotANumber),
        parses_to_u8(s@) && digits_val(numeral_of(s@)) == 0 ==> r == Err::<u8, SeqLenError>(
            SeqLenError::Zero,
        ),
        parses_to_u8(s@) && digits_val(numeral_of(s@)) > SEQ_MAX ==> r == Err::<u8, SeqLenError>(
            SeqLenError::OutOfRange,
        ),
        parses_to_u8(s@) && SEQ_MIN <= digits_val(numeral_of(s@)) && digits_val(numeral_of(s@))
            <= SEQ_MAX ==> r == Ok::<u8, SeqLenError>(digits_val(numeral_of(s@)) as u8),
{
    let v = chars_of(s);
    let start: usize = if v.len() > 0 && v[0] == '+' {
        1
    } else {
        0
    };
    let ghost t = numeral_of(s@);
    proof {
        assert(t =~= v@.skip(start as int));
    }
    if v.len() == start {
        return Err(SeqLenError::NotANumber);
    }
    let mut acc: u32 = 0;
    let mut i: usize = start;
    proof {
        assert(t.take(0) =~= Seq::<char>::empty());
    }
    while i < v.len()
        invariant
            t == numeral_of(s@),
            t == v@.skip(start as int),
            start <= i <= v@.len(),
            acc <= 255,
            acc == digits_val(t.take(i - start)),
            all_digits(t.take(i - start)),
        decreases v@.len() - i,
    {
        let c = v[i];
        proof {
            lemma_char_bound(c);
        }
        let u = c as u32;
        if u < 48 || u > 57 {
            proof {
                assert(t[i - start] == v@[i as int]);
                assert(!is_digit_char(t[i - start]));
            }
            return Err(SeqLenError::NotANumber);
        }
        let d = u - 48;
        let next: u32 = acc * 10 + d;
        proof {
            assert(t.take(i - start + 1).drop_last() =~= t.take(i - start));
            assert(t.take(i - start + 1).last() == t[i - start]);
            assert(t[i - start] == v@[i as int]);
            assert(all_digits(t.take(i - start + 1))) by {
                assert(forall|k: int|
                    0 <= k < i - start ==> #[trigger] t.take(i - start + 1)[k] == t.take(
                        i - start,
                    )[k]);
            }
            assert(digits_val(t.take(i - start + 1)) == digits_val(t.take(i - start)) * 10 + (t[i
                - start] as int - 48));
        }
        if next > 255 {
            proof {
                if parses_to_u8(s@) {
                    lemma_digits_prefix_le(t, i - start + 1);
                }
            }
            return Err(SeqLenError::NotANumber);
        }
        acc = next;
        i += 1;
    }
    proof {
        assert(t.take(v@.len() - start) =~= t);
    }
    if acc == 0 {
        return Err(SeqLenError::Zero);
    }
    if acc > SEQ_MAX as u32 {
        return Err(SeqLenError::OutOfRange);
    }
    Ok(acc as u8)
}

} // verus!
