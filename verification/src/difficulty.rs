//! The adjustment of the target to the pace at which blocks were found.

use vstd::prelude::*;
use bigdecimal::BigDecimal;
use crate::uint256::{
    dec_text,
    dec_value,
    is_dec_str,
    is_dec_text,
    lemma_dec_text_is_dec,
    pow2_256,
};
use crate::U256;

verus! {

/// The text that `bigdecimal` prints for `digits * (elapsed / ideal)`, where
/// `digits` is read as a decimal number and the quotient is taken first;
/// `None` where it cannot read `digits`.
pub uninterp spec fn scaled_decimal(digits: Seq<char>, elapsed: int, ideal: int) -> Option<
    Seq<char>,
>;

/// Scales a decimal number by `elapsed / ideal` with `bigdecimal`.
///
/// Trusted: the result is the text named `scaled_decimal`. The number is
/// read with `BigDecimal::parse_bytes`, `elapsed` and `ideal` are turned
/// into decimals with `BigDecimal::from`, the second is divided by the
/// third, the number is multiplied by the quotient, and the product is
/// printed with `to_string`. A number that cannot be read gives `None`.
/// The division panics on a divisor of zero, which `requires` leaves out.
#[verifier::external_body]
fn scale_decimal(digits: &str, elapsed: i64, ideal: u64) -> (out: Option<String>)
    requires
        is_dec_text(digits@),
        ideal != 0,
    ensures
        (match out {
            Some(text) => Some(text@),
            None => None,
        }) == scaled_decimal(digits@, elapsed as int, ideal as int),
{
    let number = BigDecimal::parse_bytes(digits.as_bytes(), 10)?;
    let ratio = BigDecimal::from(elapsed) / BigDecimal::from(ideal);
    Some((number * ratio).to_string())
}

/// The place of the first `.` in the text; its length where there is none.
pub open spec fn first_dot(s: Seq<char>) -> int
    decreases s.len(),
{
    if s.len() == 0 {
        0
    } else {
        let before = first_dot(s.drop_last());
        if before < s.len() - 1 {
            before
        } else if s.last() == '.' {
            s.len() - 1
        } else {
            s.len() as int
        }
    }
}

/// The text before the first `.`; the whole text where there is none.
pub open spec fn integer_part(s: Seq<char>) -> Seq<char> {
    s.take(first_dot(s))
}

/// A `.` found in a prefix of the text is the first `.` of the whole text.
proof fn lemma_first_dot_prefix(s: Seq<char>, n: int)
    requires
        0 <= n <= s.len(),
        first_dot(s.take(n)) < n,
    ensures
        first_dot(s) == first_dot(s.take(n)),
    decreases s.len(),
{
    if n == s.len() {
        assert(s.take(n) =~= s);
    } else {
        assert(s.drop_last().take(n) =~= s.take(n));
        lemma_first_dot_prefix(s.drop_last(), n);
    }
}

/// The text before the first `.`.
pub fn integer_part_of(text: &str) -> (whole: &str)
    ensures
        whole@ == integer_part(text@),
{
    let n: usize = text.unicode_len();
    let mut i: usize = 0;
    proof {
        assert(text@.take(0) =~= Seq::<char>::empty());
    }
    while i < n
        invariant
            i <= n,
            n == text@.len(),
            first_dot(text@.take(i as int)) == i,
        decreases n - i,
    {
        proof {
            assert(text@.take(i + 1).drop_last() =~= text@.take(i as int));
        }
        if text.get_char(i) == '.' {
            proof {
                lemma_first_dot_prefix(text@, i + 1);
            }
            return text.substring_char(0, i);
        }
        i += 1;
    }
    proof {
        assert(text@.take(i as int) =~= text@);
    }
    text.substring_char(0, n)
}

/// The target after an adjustment: `scaled`, but no less than a quarter of
/// the old target and no more than four times the old target, and then no
/// more than the easiest target allowed.
pub open spec fn clamp_target(old_target: U256, scaled: nat) -> U256 {
    let low = old_target.value() / 4;
    let high = old_target.value() * 4;
    let clamped = if scaled < low {
        low
    } else if scaled > high {
        high
    } else {
        scaled
    };
    if clamped <= crate::min_target().value() {
        U256::from_nat(clamped)
    } else {
        crate::min_target()
    }
}

/// An adjusted target is at least a quarter of the old one, at most four
/// times the old one, and never easier than the easiest target allowed,
/// whatever the pace was. (The old target is itself no easier than that.)
pub proof fn lemma_retarget_bounded(old_target: U256, scaled: nat)
    requires
        old_target.value() <= crate::min_target().value(),
    ensures
        old_target.value() / 4 <= clamp_target(old_target, scaled).value() <= old_target.value() * 4,
        clamp_target(old_target, scaled).value() <= crate::min_target().value(),
{
    let low = old_target.value() / 4;
    let high = old_target.value() * 4;
    let clamped = if scaled < low {
        low
    } else if scaled > high {
        high
    } else {
        scaled
    };
    if clamped <= crate::min_target().value() {
        U256::lemma_value_from_nat(clamped);
    }
}

/// The adjusted target for a scaled target, as [`clamp_target`] gives it.
pub fn retarget(old_target: U256, scaled: U256) -> (new_target: U256)
    ensures
        new_target == clamp_target(old_target, scaled.value()),
{
    let (low, _rest) = old_target.div_mod_u64(4);
    let clamped = if scaled.lt(&low) {
        low
    } else {
        match old_target.checked_mul_u64(4) {
            Some(high) => {
                if high.lt(&scaled) {
                    high
                } else {
                    scaled
                }
            },
            None => scaled,
        }
    };
    proof {
        scaled.lemma_value_bound();
        clamped.lemma_from_nat_value();
    }
    if clamped.le(&crate::min_target()) {
        clamped
    } else {
        crate::min_target()
    }
}

/// The product of the interval between adjustments and the time meant to
/// pass between two blocks, in seconds.
pub open spec fn ideal_seconds() -> int {
    (crate::IDEAL_BLOCK_TIME * crate::DIFFICULTY_UPDATE_INTERVAL) as int
}

/// The target that follows `target` when the last interval took `elapsed`
/// seconds: the target times `elapsed / ideal_seconds()`, worked out in
/// decimals and cut off at the decimal point, then clamped as
/// [`clamp_target`] says. Where the decimal arithmetic gives no number that
/// can be read (a negative one, say), the target stays.
pub open spec fn adjusted(target: U256, elapsed: i64) -> U256 {
    match scaled_decimal(dec_text(target.value()), elapsed as int, ideal_seconds()) {
        Some(text) => {
            if is_dec_text(integer_part(text)) {
                clamp_target(target, dec_value(integer_part(text)))
            } else {
                target
            }
        },
        None => target,
    }
}

/// The target that follows `target` when the last interval took `elapsed`
/// seconds.
pub fn adjust(target: U256, elapsed: i64) -> (new_target: U256)
    ensures
        new_target == adjusted(target, elapsed),
{
    let ideal: u64 = crate::IDEAL_BLOCK_TIME * crate::DIFFICULTY_UPDATE_INTERVAL;
    let digits = target.to_dec_string();
    proof {
        lemma_dec_text_is_dec(target.value());
    }
    let text = match scale_decimal(digits.as_str(), elapsed, ideal) {
        Some(text) => text,
        None => {
            return target;
        },
    };
    let whole = integer_part_of(text.as_str());
    if !is_dec_str(whole) {
        return target;
    }
    let scaled = match U256::from_dec_str(whole) {
        Some(scaled) => scaled,
        None => U256::max_value(),
    };
    proof {
        if dec_value(whole@) >= pow2_256() {
            lemma_clamp_saturates(target, dec_value(whole@));
        }
    }
    retarget(target, scaled)
}

/// A scaled target that does not fit in 256 bits is clamped like the
/// largest one that does.
proof fn lemma_clamp_saturates(old_target: U256, scaled: nat)
    requires
        scaled >= pow2_256(),
    ensures
        clamp_target(old_target, scaled) == clamp_target(old_target, (pow2_256() - 1) as nat),
{
    old_target.lemma_value_bound();
}

} // verus!
