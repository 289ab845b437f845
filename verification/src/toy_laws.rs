//! What holds of the toy game: what its numbers are of, when it passes and when it is refused.

use vstd::arithmetic::power2;
use vstd::arithmetic::power2::pow2;
use vstd::prelude::*;

use crate::arith;
use crate::export;
use crate::export::Action;
use crate::ieee::{Double, Single};
use crate::money_laws;
use crate::signed;
use crate::sizes;
use crate::sums;
use crate::validate;
use crate::validate::{Observed, ToyGameResult};

verus! {

/// Whether a hand of the engine has cards of two ranks, in whatever order.
pub open spec fn of_ranks(hand: (u8, u8), a: int, b: int) -> bool {
    (hand.0 / 4 == a && hand.1 / 4 == b) || (hand.0 / 4 == b && hand.1 / 4 == a)
}

/// The weights, in order, of those of the first `k` hands that have cards of two ranks.
pub open spec fn weights_of(o: Observed, a: int, b: int, k: int) -> Seq<Single>
    decreases k,
{
    if k <= 0 {
        Seq::empty()
    } else if of_ranks(o.hands@[k - 1], a, b) {
        weights_of(o, a, b, k - 1).push(o.weights@[k - 1])
    } else {
        weights_of(o, a, b, k - 1)
    }
}

proof fn lemma_push(s: Seq<Single>, w: Single)
    ensures
        sums::sum(s.push(w)) == signed::sum(sums::sum(s), signed::widened(w)),
{
    lemma_partial(s, w, s.len() as int);
}

proof fn lemma_partial(s: Seq<Single>, w: Single, k: int)
    requires
        0 <= k <= s.len(),
    ensures
        sums::partial(s.push(w), k) == sums::partial(s, k),
    decreases k,
{
    if k > 0 {
        lemma_partial(s, w, k - 1);
    }
}

/// The hands are counted exactly where each of them is 65 or JT; the nuts weigh what the hands of 65
/// weigh together, and the bluffs what those of JT do.
pub proof fn law_toy_hands_are_weighed(o: Observed, k: int)
    requires
        0 <= k <= o.hands@.len(),
    ensures
        validate::sums_of(o, k) is Ok <==> forall|i: int|
            0 <= i < k ==> of_ranks(#[trigger] o.hands@[i], 3, 4) || of_ranks(o.hands@[i], 8, 9),
        validate::sums_of(o, k) is Ok ==> {
            let s = validate::sums_of(o, k)->Ok_0;
            &&& s.nuts_total == sums::sum(weights_of(o, 3, 4, k))
            &&& s.bluff_total == sums::sum(weights_of(o, 8, 9, k))
        },
    decreases k,
{
    if k > 0 {
        law_toy_hands_are_weighed(o, k - 1);
        let hand = o.hands@[k - 1];
        assert(validate::ranks(hand) == (3u8, 4u8) <==> of_ranks(hand, 3, 4));
        assert(validate::ranks(hand) == (8u8, 9u8) <==> of_ranks(hand, 8, 9));
        lemma_push(weights_of(o, 3, 4, k - 1), o.weights@[k - 1]);
        lemma_push(weights_of(o, 8, 9, k - 1), o.weights@[k - 1]);
        if validate::sums_of(o, k - 1) is Ok && !(of_ranks(hand, 3, 4) || of_ranks(hand, 8, 9)) {
            assert(!(of_ranks(o.hands@[k - 1], 3, 4) || of_ranks(o.hands@[k - 1], 8, 9)));
        }
    }
}

/// How often a hand takes the second action.
pub open spec fn second(o: Observed, hand: int) -> Single {
    o.strategy@[o.hands@.len() + hand]
}

/// The bit pattern of 1 in binary32.
pub const ALWAYS: u32 = 0x3F80_0000;

/// A hand that always takes the second action does so with all its weight, and one that never takes
/// it with none.
proof fn lemma_acting(o: Observed, hand: int)
    requires
        money_laws::ordinary(validate::weight(o, hand)),
    ensures
        second(o, hand).bits == ALWAYS ==> validate::acting(o, hand) == validate::weight(o, hand),
        second(o, hand).bits == 0 ==> validate::acting(o, hand).bits == 0,
{
    let w = validate::weight(o, hand);
    money_laws::lemma_ordinary(w);
    arith::lemma_identity(w);
    money_laws::lemma_one_single();
    let f = signed::widened(second(o, hand));
    if second(o, hand).bits == ALWAYS {
        assert(second(o, hand) == Single { bits: ALWAYS });
        money_laws::lemma_ordinary(f);
        assert(1 * pow2(1074) == pow2(1074));
        money_laws::lemma_times(w, f, 1);
        assert(1 * w.value() == w.value());
    }
    if second(o, hand).bits == 0 {
        assert(second(o, hand).value() == 0);
        assert(0 * pow2(925) == 0);
        arith::lemma_zero(1, 0x20_0000_0000_0000);
        assert(f.bits == 0);
        money_laws::lemma_ordinary(f);
        assert(0 * pow2(1074) == 0);
        money_laws::lemma_times(w, f, 0);
        assert(0 * w.value() == 0);
    }
}

proof fn lemma_nothing_more(a: Double)
    requires
        a.bits == 0,
    ensures
        signed::sum(a, a).bits == 0,
{
    money_laws::lemma_ordinary(a);
}

/// Where every hand takes the second action always, all that the hands weigh takes it; where none
/// takes it ever, nothing does.
pub proof fn law_always_and_never(o: Observed, k: int)
    requires
        0 <= k <= o.hands@.len(),
        forall|i: int| 0 <= i < k ==> money_laws::ordinary(#[trigger] validate::weight(o, i)),
    ensures
        (forall|i: int| 0 <= i < k ==> (#[trigger] second(o, i)).bits == ALWAYS)
            ==> validate::acting_of(o, k) == validate::all_of(o, k),
        (forall|i: int| 0 <= i < k ==> (#[trigger] second(o, i)).bits == 0) ==> validate::acting_of(
            o,
            k,
        ).bits == 0,
        k <= o.weights@.len() ==> validate::all_of(o, k) == sums::sum(o.weights@.take(k)),
    decreases k,
{
    if k > 0 {
        law_always_and_never(o, k - 1);
        assert(money_laws::ordinary(validate::weight(o, k - 1)));
        lemma_acting(o, k - 1);
        if validate::acting_of(o, k - 1).bits == 0 && validate::acting(o, k - 1).bits == 0 {
            assert(validate::acting_of(o, k - 1) == validate::acting(o, k - 1));
            lemma_nothing_more(validate::acting_of(o, k - 1));
        }
        if k <= o.weights@.len() {
            assert(o.weights@.take(k) =~= o.weights@.take(k - 1).push(o.weights@[k - 1]));
            lemma_push(o.weights@.take(k - 1), o.weights@[k - 1]);
        }
    } else {
        assert(o.weights@.take(0).len() == 0);
    }
}

/// Where 65 always bets and JT never, the nuts bet with all their weight and the bluffs with none;
/// and the other way round.
pub proof fn law_bets_are_of_the_hands_that_bet(o: Observed, k: int, nuts: bool)
    requires
        0 <= k <= o.hands@.len(),
        forall|i: int| 0 <= i < k ==> money_laws::ordinary(#[trigger] validate::weight(o, i)),
        validate::sums_of(o, k) is Ok,
        forall|i: int|
            0 <= i < k ==> (#[trigger] second(o, i)).bits == (if of_ranks(o.hands@[i], 3, 4) == nuts {
                ALWAYS
            } else {
                0u32
            }),
    ensures
        ({
            let s = validate::sums_of(o, k)->Ok_0;
            if nuts {
                s.nuts_bet == s.nuts_total && s.bluff_bet.bits == 0
            } else {
                s.bluff_bet == s.bluff_total && s.nuts_bet.bits == 0
            }
        }),
    decreases k,
{
    if k > 0 {
        law_bets_are_of_the_hands_that_bet(o, k - 1, nuts);
        assert(money_laws::ordinary(validate::weight(o, k - 1)));
        lemma_acting(o, k - 1);
        let hand = o.hands@[k - 1];
        assert(second(o, k - 1).bits == (if of_ranks(hand, 3, 4) == nuts {
            ALWAYS
        } else {
            0u32
        }));
        assert(validate::ranks(hand) == (3u8, 4u8) <==> of_ranks(hand, 3, 4));
        let before = validate::sums_of(o, k - 1)->Ok_0;
        if validate::acting(o, k - 1).bits == 0 {
            if before.nuts_bet.bits == 0 {
                assert(before.nuts_bet == validate::acting(o, k - 1));
                lemma_nothing_more(before.nuts_bet);
            }
            if before.bluff_bet.bits == 0 {
                assert(before.bluff_bet == validate::acting(o, k - 1));
                lemma_nothing_more(before.bluff_bet);
            }
        }
    }
}

/// The toy game is refused exactly where a player has not two actions with a check or a fold first,
/// a hand is neither 65 nor JT, a player's hands weigh nothing, or nothing bets.
pub proof fn law_when_toy_games_are_refused(oop: Observed, ip: Observed)
    ensures
        ({
            let n = oop.hands@.len() as int;
            let s = validate::sums_of(oop, n);
            let known = forall|i: int|
                0 <= i < n ==> of_ranks(#[trigger] oop.hands@[i], 3, 4) || of_ranks(
                    oop.hands@[i],
                    8,
                    9,
                );
            validate::toy_fault(oop, ip) is None <==> {
                &&& oop.actions@.len() == 2
                &&& oop.actions@[0] == Action::Check
                &&& known
                &&& !nothing(s->Ok_0.nuts_total)
                &&& !nothing(s->Ok_0.bluff_total)
                &&& !nothing(signed::sum(s->Ok_0.nuts_bet, s->Ok_0.bluff_bet))
                &&& ip.actions@.len() == 2
                &&& ip.actions@[0] == Action::Fold
                &&& !nothing(validate::all_of(ip, ip.hands@.len() as int))
            }
        }),
{
    law_toy_hands_are_weighed(oop, oop.hands@.len() as int);
    assert((Double { bits: 0 }).value() == 0);
}

/// A number that is zero or less.
pub open spec fn nothing(d: Double) -> bool {
    !d.nan() && d.value() <= 0
}

/// A result's checks are of its own numbers, and it passes exactly where all three checks do: the
/// call frequency and the share of bluffs are each within the tolerance of what is expected, and the
/// exploitability is no more than allowed.
pub proof fn law_results_pass_their_checks(r: ToyGameResult, oop: Observed, ip: Observed, exploitability: Single)
    requires
        validate::result_is(r, oop, ip, exploitability),
    ensures
        r.checks@.len() == 3,
        r.pass <==> r.checks@[0].pass && r.checks@[1].pass && r.checks@[2].pass,
        r.checks@[0].value == r.ip_call_frequency,
        r.checks@[1].value == r.bluff_share_of_bets,
        r.checks@[2].value == r.exploitability_pct_pot,
        forall|k: int|
            0 <= k < 2 ==> {
                let c = #[trigger] r.checks@[k];
                c.pass <==> !c.value.nan() && c.expected.value() - c.tolerance.value()
                    <= c.value.value() <= c.expected.value() + c.tolerance.value()
            },
        r.checks@[2].pass <==> !r.checks@[2].value.nan() && r.checks@[2].value.value()
            <= r.checks@[2].tolerance.value(),
        near(r.checks@[0].expected, 1, 2),
        near(r.checks@[1].expected, 1, 3),
        near(r.checks@[0].tolerance, 2, 100),
        near(r.checks@[1].tolerance, 2, 100),
        near(r.checks@[2].tolerance, 1, 10),
        r.checks@[2].expected.bits == 0,
{
    law_constants();
    let top = Double { bits: validate::MAX_EXPLOITABILITY_PCT };
    assert(!top.nan());
}

/// A number is as near to `n / d` as a binary64 number can be: half of its last place at most.
pub open spec fn near(v: Double, n: int, d: int) -> bool {
    let unit = pow2((v.exponent() - 1) as nat);
    -(d * unit) <= 2 * (v.value() * d - n * pow2(1074)) <= d * unit
}

proof fn lemma_near(v: Double, m: int, e: nat, k: int, n: int, d: int)
    requires
        v.bits < 0x8000_0000_0000_0000,
        v.exponent() == e + 1,
        0x10_0000_0000_0000 + v.fraction() == m,
        pow2(1074) == k * pow2(e),
        -d <= 2 * (m * d - n * k) <= d,
    ensures
        near(v, n, d),
{
    let u = pow2(e) as int;
    power2::lemma_pow2_pos(e);
    let x = m * d - n * k;
    assert((m * u) * d - n * (k * u) == x * u) by (nonlinear_arith)
        requires
            x == m * d - n * k,
    ;
    assert(-(d * u) <= 2 * (x * u) <= d * u) by (nonlinear_arith)
        requires
            -d <= 2 * x <= d,
            u > 0,
    ;
}

/// What is expected of the toy game is a half and a third, off by no more than two hundredths, and an
/// exploitability of no more than a tenth of a percent; pruning starts below a hundred-thousandth, and
/// sizes count as whole within a billionth.
pub proof fn law_constants()
    ensures
        near(Double { bits: validate::CALLED }, 1, 2),
        near(Double { bits: validate::BLUFFS }, 1, 3),
        near(Double { bits: validate::TOLERANCE }, 2, 100),
        near(Double { bits: validate::MAX_EXPLOITABILITY_PCT }, 1, 10),
        near(Double { bits: export::DEFAULT_PRUNE_EPSILON }, 1, 100000),
        near(Double { bits: sizes::NEARLY }, 1, 1000000000),
{
    power2::lemma2_to64();
    power2::lemma2_to64_rest();
    power2::lemma_pow2_adds(53, 1021);
    power2::lemma_pow2_adds(54, 1020);
    power2::lemma_pow2_adds(58, 1016);
    power2::lemma_pow2_adds(56, 1018);
    power2::lemma_pow2_adds(64, 1010);
    power2::lemma_pow2_adds(5, 64);
    power2::lemma_pow2_adds(69, 1005);
    power2::lemma_pow2_adds(18, 64);
    power2::lemma_pow2_adds(82, 992);
    lemma_near(
        Double { bits: sizes::NEARLY },
        0x11_2E0B_E826_D695,
        992,
        pow2(82) as int,
        1,
        1000000000,
    );
    lemma_near(Double { bits: validate::CALLED }, 0x10_0000_0000_0000, 1021, pow2(53) as int, 1, 2);
    lemma_near(Double { bits: validate::BLUFFS }, 0x15_5555_5555_5555, 1020, pow2(54) as int, 1, 3);
    lemma_near(
        Double { bits: validate::TOLERANCE },
        0x14_7AE1_47AE_147B,
        1016,
        pow2(58) as int,
        2,
        100,
    );
    lemma_near(
        Double { bits: validate::MAX_EXPLOITABILITY_PCT },
        0x19_9999_9999_999A,
        1018,
        pow2(56) as int,
        1,
        10,
    );
    lemma_near(
        Double { bits: export::DEFAULT_PRUNE_EPSILON },
        0x14_F8B5_88E3_68F1,
        1005,
        pow2(69) as int,
        1,
        100000,
    );
}

} // verus!
