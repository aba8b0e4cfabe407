//! Choosing the token that the decoder scores highest.
//!
//! Scores are single-precision numbers, held as their bits.

use vstd::prelude::*;

verus! {

/// The bits of the lowest finite single-precision number.
pub const LOWEST: u32 = 0xff7f_ffff;

/// The bits of positive infinity; larger magnitudes are those of numbers that are none.
pub const INFINITY: u32 = 0x7f80_0000;

/// The bit that is the sign of a number.
pub const SIGN: u32 = 0x8000_0000;

/// Where the number with the given bits stands in the order of numbers, or none where the bits
/// are those of no number. Both zeros stand at the same place.
pub open spec fn rank(bits: u32) -> Option<int> {
    if bits < SIGN {
        if bits <= INFINITY {
            Some(bits as int)
        } else {
            None
        }
    } else {
        if bits - SIGN <= INFINITY {
            Some(SIGN - bits)
        } else {
            None
        }
    }
}

/// Whether the number with the bits `a` is greater than the one with the bits `b`. What is no
/// number is neither greater nor less than anything.
pub open spec fn greater(a: u32, b: u32) -> bool {
    rank(a) is Some && rank(b) is Some && rank(a)->0 > rank(b)->0
}

/// Whether `best` is the place of the highest score: the first of those that no other is greater
/// than. Only scores above the lowest finite number count; where there is none, it is 0.
pub open spec fn is_best(scores: Seq<u32>, best: int) -> bool {
    if exists|i: int| 0 <= i < scores.len() && greater(#[trigger] scores[i], LOWEST) {
        &&& 0 <= best < scores.len()
        &&& greater(scores[best], LOWEST)
        &&& forall|i: int| 0 <= i < scores.len() ==> !greater(#[trigger] scores[i], scores[best])
        &&& forall|i: int| 0 <= i < best ==> rank(#[trigger] scores[i]) != rank(scores[best])
    } else {
        best == 0
    }
}

fn is_greater(a: u32, b: u32) -> (r: bool)
    ensures
        r == greater(a, b),
{
    let (a_negative, b_negative) = (a >= SIGN, b >= SIGN);
    let a_size: u32 = if a_negative {
        a - SIGN
    } else {
        a
    };
    let b_size: u32 = if b_negative {
        b - SIGN
    } else {
        b
    };
    if a_size > INFINITY || b_size > INFINITY {
        return false;
    }
    if a_negative {
        b_negative && a_size < b_size
    } else if b_negative {
        a_size > 0 || b_size > 0
    } else {
        a_size > b_size
    }
}

/// The place of the highest score.
pub fn best_score(scores: &[u32]) -> (r: usize)
    ensures
        is_best(scores@, r as int),
{
    let mut best: usize = 0;
    let mut top: u32 = LOWEST;
    let mut i: usize = 0;
    while i < scores.len()
        invariant
            i <= scores@.len(),
            if exists|j: int| 0 <= j < i && greater(#[trigger] scores@[j], LOWEST) {
                &&& best < i
                &&& top == scores@[best as int]
                &&& greater(top, LOWEST)
                &&& forall|j: int| 0 <= j < i ==> !greater(#[trigger] scores@[j], top)
                &&& forall|j: int| 0 <= j < best ==> rank(#[trigger] scores@[j]) != rank(top)
            } else {
                best == 0 && top == LOWEST
            },
        decreases scores@.len() - i,
    {
        let score = scores[i];
        if is_greater(score, top) {
            best = i;
            top = score;
        }
        i = i + 1;
    }
    best
}

/// There is one highest score: two places that both are that of the highest score are the same.
pub proof fn law_best_unique(scores: Seq<u32>, a: int, b: int)
    requires
        is_best(scores, a),
        is_best(scores, b),
    ensures
        a == b,
{
    if exists|i: int| 0 <= i < scores.len() && greater(#[trigger] scores[i], LOWEST) {
        assert(!greater(scores[a], scores[b]));
        assert(!greater(scores[b], scores[a]));
    }
}

/// Bits without the sign bit are ordered as the numbers that they stand for, up to infinity, and
/// what lies beyond infinity is no number and never greater.
pub proof fn law_positive_order(a: u32, b: u32)
    requires
        a < 0x8000_0000,
        b < 0x8000_0000,
    ensures
        greater(a, b) <==> b < a && a <= 0x7f80_0000,
{
}

/// Bits with the sign bit are ordered the other way round.
pub proof fn law_negative_order(a: u32, b: u32)
    requires
        a >= 0x8000_0000,
        b >= 0x8000_0000,
    ensures
        greater(a, b) <==> a < b && b <= 0xff80_0000,
{
}

/// A number without the sign bit is greater than one with it, but for the two zeros, and never
/// the other way round.
pub proof fn law_sign_order(a: u32, b: u32)
    requires
        a < 0x8000_0000,
        b >= 0x8000_0000,
    ensures
        greater(a, b) <==> a <= 0x7f80_0000 && b <= 0xff80_0000 && !(a == 0 && b == 0x8000_0000),
        !greater(b, a),
{
}

/// The place of the highest score: no score is greater, and each before it is less or is no
/// number. It is 0 where no score is above the lowest finite number.
pub proof fn law_best_is_highest(scores: Seq<u32>, best: int)
    requires
        is_best(scores, best),
    ensures
        forall|i: int| 0 <= i < scores.len() && greater(#[trigger] scores[i], 0xff7f_ffff) ==> {
            &&& 0 <= best < scores.len()
            &&& greater(scores[best], 0xff7f_ffff)
            &&& !greater(scores[i], scores[best])
            &&& i < best ==> greater(scores[best], scores[i])
        },
        (forall|i: int| 0 <= i < scores.len() ==> !greater(#[trigger] scores[i], 0xff7f_ffff))
            ==> best == 0,
{
    assert forall|i: int| 0 <= i < scores.len() && greater(#[trigger] scores[i], 0xff7f_ffff)
        implies {
        &&& 0 <= best < scores.len()
        &&& greater(scores[best], 0xff7f_ffff)
        &&& !greater(scores[i], scores[best])
        &&& i < best ==> greater(scores[best], scores[i])
    } by {
        assert(greater(scores[i], LOWEST));
        if i < best {
            assert(rank(scores[i]) != rank(scores[best]));
        }
    }
}

} // verus!
