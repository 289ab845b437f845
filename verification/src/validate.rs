//! The toy game, whose solution is known by hand: a check of the engine and of what is built on it.
//!
//! On the board 2c3d4h8s9c the player who is out of position has 65, the nuts, and JT, nothing; the
//! other one has QQ, which beats nothing but bluffs. The only bet is the pot, which is all the
//! chips. A third of the bets are bluffs then, and half of the bets are called.

use vstd::arithmetic::power2;
use vstd::arithmetic::power2::pow2;
use vstd::prelude::*;

use crate::error::Error;
use crate::export::Action;
use crate::ieee;
use crate::ieee::{Double, Single};
use crate::job;
use crate::job::exploitability_pct;
use crate::signed;

verus! {

/// The bit pattern of 0.02, how far the frequencies may be off.
pub const TOLERANCE: u64 = 0x3F94_7AE1_47AE_147B;

/// The bit pattern of 0.1, the largest exploitability in percent of the pot.
pub const MAX_EXPLOITABILITY_PCT: u64 = 0x3FB9_9999_9999_999A;

/// The bit pattern of one half, how often a bet is called.
pub const CALLED: u64 = 0x3FE0_0000_0000_0000;

/// The bit pattern of a third, the part of the bets that are bluffs.
pub const BLUFFS: u64 = 0x3FD5_5555_5555_5555;

/// The chips in the pot, and those that each player has left.
pub const POT: i32 = 100;

/// The bit pattern of the exploitability to reach, in chips: half of the largest one.
pub const TARGET: u32 = 0x3D4C_CCCD;

pub const BOARD: &'static str = "2c3d4h8s9c";

pub const OOP_RANGE: &'static str = "65,JT";

pub const IP_RANGE: &'static str = "QQ";

/// The size of the one bet.
pub const BET: &'static str = "100%";

/// One thing that is checked.
#[derive(Debug, Clone, PartialEq, Eq)]
pub struct Check {
    pub name: String,
    pub value: Double,
    pub expected: Double,
    pub tolerance: Double,
    pub pass: bool,
}

/// What the toy game came to.
#[derive(Debug, Clone, PartialEq, Eq)]
pub struct ToyGameResult {
    pub board: String,
    pub oop_range: String,
    pub ip_range: String,
    pub iterations: u32,
    pub elapsed_sec: Double,
    pub exploitability_pct_pot: Double,
    pub ip_call_frequency: Double,
    pub bluff_share_of_bets: Double,
    pub oop_bet_frequency_nuts: Double,
    pub oop_bet_frequency_bluff: Double,
    pub checks: Vec<Check>,
    pub pass: bool,
}

/// What the engine has found for one player: the actions, and for every hand its weight and, action
/// by action, how often it takes the action.
pub struct Observed {
    pub actions: Vec<Action>,
    pub hands: Vec<(u8, u8)>,
    pub weights: Vec<Single>,
    pub strategy: Vec<Single>,
}

impl Observed {
    /// There are numbers for every hand and two actions.
    pub open spec fn complete(self) -> bool {
        self.weights@.len() >= self.hands@.len() && self.strategy@.len() >= 2 * self.hands@.len()
    }
}

/// What the hands of the player who is out of position weigh, and what of it bets.
#[derive(Debug, Clone, Copy, PartialEq, Eq, Structural)]
pub struct Sums {
    pub nuts_total: Double,
    pub nuts_bet: Double,
    pub bluff_total: Double,
    pub bluff_bet: Double,
}

/// The lower and the higher rank of a hand of the engine.
pub open spec fn ranks(hand: (u8, u8)) -> (u8, u8) {
    let a = hand.0 / 4;
    let b = hand.1 / 4;
    if a <= b {
        (a, b)
    } else {
        (b, a)
    }
}

/// What a hand weighs.
pub open spec fn weight(o: Observed, hand: int) -> Double {
    signed::widened(o.weights@[hand])
}

/// What of a hand takes the second action.
pub open spec fn acting(o: Observed, hand: int) -> Double {
    signed::product(weight(o, hand), signed::widened(o.strategy@[o.hands@.len() + hand]))
}

/// The sums with one more hand, given its ranks, what it weighs and what of it bets; it must be 65
/// or JT.
pub open spec fn counted(s: Sums, ranks: (u8, u8), w: Double, a: Double) -> Result<Sums, Error> {
    if ranks == (3u8, 4u8) {
        Ok(
            Sums {
                nuts_total: signed::sum(s.nuts_total, w),
                nuts_bet: signed::sum(s.nuts_bet, a),
                ..s
            },
        )
    } else if ranks == (8u8, 9u8) {
        Ok(
            Sums {
                bluff_total: signed::sum(s.bluff_total, w),
                bluff_bet: signed::sum(s.bluff_bet, a),
                ..s
            },
        )
    } else {
        Err(Error::ToyHand(ranks.0, ranks.1))
    }
}

/// The sums of the first `k` hands.
pub open spec fn sums_of(o: Observed, k: int) -> Result<Sums, Error>
    decreases k,
{
    let zero = Double { bits: 0 };
    if k <= 0 {
        Ok(Sums { nuts_total: zero, nuts_bet: zero, bluff_total: zero, bluff_bet: zero })
    } else {
        match sums_of(o, k - 1) {
            Err(e) => Err(e),
            Ok(s) => counted(s, ranks(o.hands@[k - 1]), weight(o, k - 1), acting(o, k - 1)),
        }
    }
}

/// What the first `k` hands weigh together.
pub open spec fn all_of(o: Observed, k: int) -> Double
    decreases k,
{
    if k <= 0 {
        Double { bits: 0 }
    } else {
        signed::sum(all_of(o, k - 1), weight(o, k - 1))
    }
}

/// What of the first `k` hands takes the second action.
pub open spec fn acting_of(o: Observed, k: int) -> Double
    decreases k,
{
    if k <= 0 {
        Double { bits: 0 }
    } else {
        signed::sum(acting_of(o, k - 1), acting(o, k - 1))
    }
}

/// A number differs from another by no more than the tolerance. Numbers this close have an exact
/// difference.
pub open spec fn close(v: Double, expected: u64) -> bool {
    let d = v.value() - (Double { bits: expected }).value();
    let t = (Double { bits: TOLERANCE }).value();
    !v.nan() && -t <= d <= t
}

/// What is wrong with what was observed of the player who is out of position, if anything is.
pub open spec fn oop_fault(oop: Observed) -> Option<Error> {
    let s = sums_of(oop, oop.hands@.len() as int);
    if oop.actions@.len() != 2 || oop.actions@[0] != Action::Check {
        Some(Error::ToyActions(0))
    } else if s is Err {
        Some(s->Err_0)
    } else if s->Ok_0.nuts_total.at_most(Double { bits: 0 }) || s->Ok_0.bluff_total.at_most(
        Double { bits: 0 },
    ) {
        Some(Error::ToyNoHands(0))
    } else if signed::sum(s->Ok_0.nuts_bet, s->Ok_0.bluff_bet).at_most(Double { bits: 0 }) {
        Some(Error::ToyNoBets)
    } else {
        None
    }
}

/// What is wrong with what was observed of the other player, if anything is.
pub open spec fn ip_fault(ip: Observed) -> Option<Error> {
    if ip.actions@.len() != 2 || ip.actions@[0] != Action::Fold {
        Some(Error::ToyActions(1))
    } else if all_of(ip, ip.hands@.len() as int).at_most(Double { bits: 0 }) {
        Some(Error::ToyNoHands(1))
    } else {
        None
    }
}

/// What is wrong with what was observed, if anything is.
pub open spec fn toy_fault(oop: Observed, ip: Observed) -> Option<Error> {
    if oop_fault(oop) is Some {
        oop_fault(oop)
    } else {
        ip_fault(ip)
    }
}

/// A check is as it should be.
pub open spec fn check_is(c: Check, name: Seq<char>, value: Double, expected: u64, tolerance: u64, pass: bool) -> bool {
    &&& c.name@ == name
    &&& c.value == value
    &&& c.expected == (Double { bits: expected })
    &&& c.tolerance == (Double { bits: tolerance })
    &&& c.pass == pass
}

/// What the toy game came to, given what was observed.
pub open spec fn result_is(r: ToyGameResult, oop: Observed, ip: Observed, exploitability: Single) -> bool {
    let s = sums_of(oop, oop.hands@.len() as int)->Ok_0;
    let n = ip.hands@.len() as int;
    let called = signed::quotient(acting_of(ip, n), all_of(ip, n));
    let bluffs = signed::quotient(s.bluff_bet, signed::sum(s.nuts_bet, s.bluff_bet));
    let pct = job::percent_of_pot(exploitability, POT as int);
    let top = Double { bits: MAX_EXPLOITABILITY_PCT };
    &&& r.board@ == BOARD@
    &&& r.oop_range@ == OOP_RANGE@
    &&& r.ip_range@ == IP_RANGE@
    &&& r.exploitability_pct_pot == pct
    &&& r.ip_call_frequency == called
    &&& r.bluff_share_of_bets == bluffs
    &&& r.oop_bet_frequency_nuts == signed::quotient(s.nuts_bet, s.nuts_total)
    &&& r.oop_bet_frequency_bluff == signed::quotient(s.bluff_bet, s.bluff_total)
    &&& r.checks@.len() == 3
    &&& check_is(r.checks@[0], "ipCallFrequency"@, called, CALLED, TOLERANCE, close(called, CALLED))
    &&& check_is(r.checks@[1], "bluffShareOfBets"@, bluffs, BLUFFS, TOLERANCE, close(bluffs, BLUFFS))
    &&& check_is(
        r.checks@[2],
        "exploitabilityPctPot"@,
        pct,
        0,
        MAX_EXPLOITABILITY_PCT,
        pct.at_most(top),
    )
    &&& r.pass == (close(called, CALLED) && close(bluffs, BLUFFS) && pct.at_most(top))
}

fn count(s: &Sums, hand: (u8, u8), w: Double, a: Double) -> (r: Result<Sums, Error>)
    ensures
        r == counted(*s, ranks(hand), w, a),
{
    let (c, d): (u8, u8) = (hand.0 / 4, hand.1 / 4);
    let (lo, hi): (u8, u8) = if c <= d {
        (c, d)
    } else {
        (d, c)
    };
    if lo == 3 && hi == 4 {
        Ok(
            Sums {
                nuts_total: signed::add(s.nuts_total, w),
                nuts_bet: signed::add(s.nuts_bet, a),
                bluff_total: s.bluff_total,
                bluff_bet: s.bluff_bet,
            },
        )
    } else if lo == 8 && hi == 9 {
        Ok(
            Sums {
                nuts_total: s.nuts_total,
                nuts_bet: s.nuts_bet,
                bluff_total: signed::add(s.bluff_total, w),
                bluff_bet: signed::add(s.bluff_bet, a),
            },
        )
    } else {
        Err(Error::ToyHand(lo, hi))
    }
}

impl Observed {
    fn weight_of(&self, hand: usize) -> (r: Double)
        requires
            self.complete(),
            hand < self.hands@.len(),
        ensures
            r == weight(*self, hand as int),
    {
        signed::widen(self.weights[hand])
    }

    fn acting_part(&self, hand: usize) -> (r: Double)
        requires
            self.complete(),
            hand < self.hands@.len(),
        ensures
            r == acting(*self, hand as int),
    {
        let n: usize = self.hands.len();
        assert(n + hand < self.strategy.len());
        signed::mul(self.weight_of(hand), signed::widen(self.strategy[n + hand]))
    }

    fn add_up(&self) -> (r: Result<Sums, Error>)
        requires
            self.complete(),
        ensures
            r == sums_of(*self, self.hands@.len() as int),
    {
        let zero: Double = Double { bits: 0 };
        let mut s: Sums = Sums {
            nuts_total: zero,
            nuts_bet: zero,
            bluff_total: zero,
            bluff_bet: zero,
        };
        for i in 0..self.hands.len()
            invariant
                self.complete(),
                sums_of(*self, i as int) == Ok::<Sums, Error>(s),
        {
            let w: Double = self.weight_of(i);
            let a: Double = self.acting_part(i);
            match count(&s, self.hands[i], w, a) {
                Ok(more) => s = more,
                Err(e) => {
                    proof {
                        lemma_stray_hand(*self, i + 1, self.hands@.len() as int);
                    }
                    return Err(e);
                },
            }
        }
        Ok(s)
    }

    fn totals(&self) -> (r: (Double, Double))
        requires
            self.complete(),
        ensures
            r.0 == all_of(*self, self.hands@.len() as int),
            r.1 == acting_of(*self, self.hands@.len() as int),
    {
        let mut all: Double = Double { bits: 0 };
        let mut acting: Double = Double { bits: 0 };
        for i in 0..self.hands.len()
            invariant
                self.complete(),
                all == all_of(*self, i as int),
                acting == acting_of(*self, i as int),
        {
            all = signed::add(all, self.weight_of(i));
            acting = signed::add(acting, self.acting_part(i));
        }
        (all, acting)
    }
}

proof fn lemma_stray_hand(o: Observed, k: int, n: int)
    requires
        0 <= k <= n,
        sums_of(o, k) is Err,
    ensures
        sums_of(o, n) == sums_of(o, k),
    decreases n - k,
{
    if k < n {
        lemma_stray_hand(o, k, n - 1);
    }
}

/// Whether a number is nothing or less.
fn is_nothing(d: &Double) -> (r: bool)
    ensures
        r == d.at_most(Double { bits: 0 }),
{
    d.le(&(Double { bits: 0 }))
}

impl Observed {
    /// The sums of the player who is out of position, and what bets in all.
    fn read_oop(&self) -> (r: Result<(Sums, Double), Error>)
        requires
            self.complete(),
        ensures
            match oop_fault(*self) {
                Some(e) => r == Err::<(Sums, Double), Error>(e),
                None => r matches Ok((s, bets)) && sums_of(*self, self.hands@.len() as int) == Ok::<
                    Sums,
                    Error,
                >(s) && bets == signed::sum(s.nuts_bet, s.bluff_bet),
            },
    {
        if self.actions.len() != 2 || self.actions[0] != Action::Check {
            return Err(Error::ToyActions(0));
        }
        let s: Sums = match self.add_up() {
            Ok(s) => s,
            Err(e) => return Err(e),
        };
        if is_nothing(&s.nuts_total) || is_nothing(&s.bluff_total) {
            return Err(Error::ToyNoHands(0));
        }
        let bets: Double = signed::add(s.nuts_bet, s.bluff_bet);
        if is_nothing(&bets) {
            return Err(Error::ToyNoBets);
        }
        Ok((s, bets))
    }

    /// What the other player's hands weigh, and what of them calls.
    fn read_ip(&self) -> (r: Result<(Double, Double), Error>)
        requires
            self.complete(),
        ensures
            match ip_fault(*self) {
                Some(e) => r == Err::<(Double, Double), Error>(e),
                None => r matches Ok((all, calling)) && all == all_of(
                    *self,
                    self.hands@.len() as int,
                ) && calling == acting_of(*self, self.hands@.len() as int),
            },
    {
        if self.actions.len() != 2 || self.actions[0] != Action::Fold {
            return Err(Error::ToyActions(1));
        }
        let (all, calling): (Double, Double) = self.totals();
        if is_nothing(&all) {
            return Err(Error::ToyNoHands(1));
        }
        Ok((all, calling))
    }
}

/// The numbers around an expected one that are close to it, as bit patterns.
proof fn lemma_close(v: Double, expected: u64, low: u64, high: u64)
    requires
        (expected == CALLED && low == 0x3FDE_B851_EB85_1EB9 && high == 0x3FE0_A3D7_0A3D_70A3) || (
        expected == BLUFFS && low == 0x3FD4_0DA7_40DA_740E && high == 0x3FD6_9D03_69D0_369C),
    ensures
        close(v, expected) <==> low <= v.bits <= high,
{
    let u = pow2(1016) as int;
    power2::lemma_pow2_pos(1016);
    power2::lemma2_to64();
    power2::lemma_pow2_adds(4, 1016);
    power2::lemma_pow2_adds(5, 1016);
    let a = Double { bits: low };
    let b = Double { bits: (low - 1) as u64 };
    let c = Double { bits: high };
    let d = Double { bits: (high + 1) as u64 };
    let e = Double { bits: expected };
    let t = Double { bits: TOLERANCE };
    ieee::lemma_zero_bits(v);
    if v.bits < 0x8000_0000_0000_0000 {
        ieee::lemma_bits_order(v, a);
        ieee::lemma_bits_order(b, v);
        ieee::lemma_bits_order(c, v);
        ieee::lemma_bits_order(v, d);
    }
    lemma_scaled(t, 1016, 5764607523034235, 1, 5764607523034235);
    if expected == CALLED {
        lemma_scaled(e, 1021, 4503599627370496, 32, 144115188075855872);
        lemma_scaled(a, 1020, 8646911284551353, 16, 138350580552821648);
        lemma_scaled(b, 1020, 8646911284551352, 16, 138350580552821632);
        lemma_scaled(c, 1021, 4683743612465315, 32, 149879795598890080);
        lemma_scaled(d, 1021, 4683743612465316, 32, 149879795598890112);
    } else {
        lemma_scaled(e, 1020, 6004799503160661, 16, 96076792050570576);
        lemma_scaled(a, 1020, 5644511532971022, 16, 90312184527536352);
        lemma_scaled(b, 1020, 5644511532971021, 16, 90312184527536336);
        lemma_scaled(c, 1020, 6365087473350300, 16, 101841399573604800);
        lemma_scaled(d, 1020, 6365087473350301, 16, 101841399573604816);
    }
}

/// A number in units of a power of two.
proof fn lemma_scaled(v: Double, s: nat, m: int, k: int, n: int)
    requires
        v.bits < 0x8000_0000_0000_0000,
        v.exponent() == s + 1,
        0x10_0000_0000_0000 + v.fraction() == m,
        pow2(s) == k * pow2(1016),
        m * k == n,
    ensures
        v.value() == n * pow2(1016),
{
    let u = pow2(1016) as int;
    assert(m * (k * u) == (m * k) * u) by (nonlinear_arith);
}

/// Whether a number is close to the one that is expected.
fn is_close(v: Double, expected: u64, low: u64, high: u64) -> (r: bool)
    requires
        (expected == CALLED && low == 0x3FDE_B851_EB85_1EB9 && high == 0x3FE0_A3D7_0A3D_70A3) || (
        expected == BLUFFS && low == 0x3FD4_0DA7_40DA_740E && high == 0x3FD6_9D03_69D0_369C),
    ensures
        r == close(v, expected),
{
    proof {
        lemma_close(v, expected, low, high);
    }
    low <= v.bits && v.bits <= high
}

/// The three checks.
fn checks_of(called: Double, bluffs: Double, pct: Double) -> (r: Vec<Check>)
    ensures
        r@.len() == 3,
        check_is(r@[0], "ipCallFrequency"@, called, CALLED, TOLERANCE, close(called, CALLED)),
        check_is(r@[1], "bluffShareOfBets"@, bluffs, BLUFFS, TOLERANCE, close(bluffs, BLUFFS)),
        check_is(
            r@[2],
            "exploitabilityPctPot"@,
            pct,
            0,
            MAX_EXPLOITABILITY_PCT,
            pct.at_most(Double { bits: MAX_EXPLOITABILITY_PCT }),
        ),
{
    let tolerance: Double = Double { bits: TOLERANCE };
    let top: Double = Double { bits: MAX_EXPLOITABILITY_PCT };
    let mut checks: Vec<Check> = Vec::new();
    checks.push(
        Check {
            name: "ipCallFrequency".to_owned(),
            value: called,
            expected: Double { bits: CALLED },
            tolerance,
            pass: is_close(called, CALLED, 0x3FDE_B851_EB85_1EB9, 0x3FE0_A3D7_0A3D_70A3),
        },
    );
    checks.push(
        Check {
            name: "bluffShareOfBets".to_owned(),
            value: bluffs,
            expected: Double { bits: BLUFFS },
            tolerance,
            pass: is_close(bluffs, BLUFFS, 0x3FD4_0DA7_40DA_740E, 0x3FD6_9D03_69D0_369C),
        },
    );
    checks.push(
        Check {
            name: "exploitabilityPctPot".to_owned(),
            value: pct,
            expected: Double { bits: 0 },
            tolerance: top,
            pass: pct.le(&top),
        },
    );
    checks
}

/// What the toy game came to, given what was observed at the root and after a bet, the
/// exploitability in chips, the iterations and the time.
pub fn toy_game_result(
    oop: &Observed,
    ip: &Observed,
    exploitability: Single,
    iterations: u32,
    elapsed_sec: Double,
) -> (r: Result<ToyGameResult, Error>)
    requires
        oop.complete(),
        ip.complete(),
    ensures
        match toy_fault(*oop, *ip) {
            Some(e) => r == Err::<ToyGameResult, Error>(e),
            None => r is Ok && result_is(r->Ok_0, *oop, *ip, exploitability) && r->Ok_0.iterations
                == iterations && r->Ok_0.elapsed_sec == elapsed_sec,
        },
{
    let (s, bets): (Sums, Double) = match oop.read_oop() {
        Ok(read) => read,
        Err(e) => return Err(e),
    };
    let bluffs: Double = signed::div(s.bluff_bet, bets);
    let (all, calling): (Double, Double) = match ip.read_ip() {
        Ok(read) => read,
        Err(e) => return Err(e),
    };
    let called: Double = signed::div(calling, all);
    let pct: Double = exploitability_pct(exploitability, POT);
    let checks: Vec<Check> = checks_of(called, bluffs, pct);
    let pass: bool = checks[0].pass && checks[1].pass && checks[2].pass;
    Ok(
        ToyGameResult {
            board: BOARD.to_owned(),
            oop_range: OOP_RANGE.to_owned(),
            ip_range: IP_RANGE.to_owned(),
            iterations,
            elapsed_sec,
            exploitability_pct_pot: pct,
            ip_call_frequency: called,
            bluff_share_of_bets: bluffs,
            oop_bet_frequency_nuts: signed::div(s.nuts_bet, s.nuts_total),
            oop_bet_frequency_bluff: signed::div(s.bluff_bet, s.bluff_total),
            checks,
            pass,
        },
    )
}

/// The frequencies that theory gives are close to what is expected, and so is nothing that is off
/// by more than the tolerance.
pub proof fn law_theory_passes(v: Double, expected: u64)
    requires
        expected == CALLED || expected == BLUFFS,
    ensures
        close(Double { bits: expected }, expected),
        close(v, expected) ==> 0x3FD4_0000_0000_0000 < v.bits < 0x3FE1_0000_0000_0000,
{
    if expected == CALLED {
        lemma_close(v, expected, 0x3FDE_B851_EB85_1EB9, 0x3FE0_A3D7_0A3D_70A3);
        lemma_close(Double { bits: expected }, expected, 0x3FDE_B851_EB85_1EB9, 0x3FE0_A3D7_0A3D_70A3);
    } else {
        lemma_close(v, expected, 0x3FD4_0DA7_40DA_740E, 0x3FD6_9D03_69D0_369C);
        lemma_close(Double { bits: expected }, expected, 0x3FD4_0DA7_40DA_740E, 0x3FD6_9D03_69D0_369C);
    }
}

/// The exit code of a self-check: zero where it passes.
pub fn exit_code(result: &ToyGameResult) -> (code: i32)
    ensures
        code == (if result.pass {
            0int
        } else {
            1int
        }),
{
    if result.pass {
        0
    } else {
        1
    }
}

} // verus!
