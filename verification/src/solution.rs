//! What the engine has found for a player node, in the form in which it is stored.
//!
//! Numbers are turned into what a blob holds of them as soon as they are there, so that a game of
//! many nodes takes no more room than its blobs. What they were is kept for proofs alone.

use vstd::arithmetic::power2::pow2;
use vstd::prelude::*;

use crate::arith;
use crate::error::Error;
use crate::ev;
use crate::ev::quantize_ev;
use crate::export::copy_u8;
use crate::ieee;
use crate::ieee::{Double, Single};
use crate::signed;
use crate::strategy;
use crate::strategy::quantize_strategy;
use crate::sums;

verus! {

/// The bit pattern of 100 in binary32, the chips of a big blind.
pub const HUNDRED: u32 = 0x42C8_0000;

/// Chips in big blinds; infinities and NaNs stay what they are.
pub open spec fn in_big_blinds(v: Single) -> Single {
    if v.finite() {
        signed::single_with_sign(
            arith::single_quotient_of(signed::single_size(v), Single { bits: HUNDRED }),
            v.negative(),
        )
    } else {
        v
    }
}

/// All of some numbers of chips in big blinds.
pub open spec fn all_in_big_blinds(values: Seq<Single>) -> Seq<Single> {
    Seq::new(values.len(), |i: int| in_big_blinds(values[i]))
}

fn chips_in_big_blinds(v: Single) -> (r: Single)
    ensures
        r == in_big_blinds(v),
{
    let size: Single = Single { bits: v.bits % 0x8000_0000 };
    if size.bits >= 0x7F80_0000 {
        return v;
    }
    let quotient: Single = if size.bits == 0 {
        proof {
            let p = size.value();
            let t = pow2(149) as int;
            assert(p == 0);
            assert(p * t == 0) by (nonlinear_arith)
                requires
                    p == 0,
            ;
            let hundred = Single { bits: HUNDRED };
            ieee::lemma_single_zero(hundred);
            arith::lemma_zero(hundred.value(), 0x100_0000);
        }
        Single { bits: 0 }
    } else {
        size.div(&Single { bits: HUNDRED })
    };
    if v.bits >= 0x8000_0000 {
        Single { bits: quotient.bits + 0x8000_0000 }
    } else {
        quotient
    }
}

fn list_in_big_blinds(values: &Vec<Single>) -> (r: Vec<Single>)
    ensures
        r@ == all_in_big_blinds(values@),
{
    let mut out: Vec<Single> = Vec::new();
    for i in 0..values.len()
        invariant
            out@.len() == i,
            forall|j: int| 0 <= j < i ==> #[trigger] out@[j] == in_big_blinds(values@[j]),
    {
        out.push(chips_in_big_blinds(values[i]));
    }
    assert(out@ =~= all_in_big_blinds(values@));
    out
}

/// Whether a list has one number for each action and hand.
fn right_length(len: usize, n_actions: usize, n_hands: usize) -> (r: bool)
    ensures
        r == (len == n_actions * n_hands),
{
    match n_actions.checked_mul(n_hands) {
        None => false,
        Some(n) => len == n,
    }
}

/// How much of each of a player's hands gets to a node, all together.
pub struct Weights {
    total: Double,
    values: Ghost<Seq<Single>>,
}

impl View for Weights {
    type V = Seq<Single>;

    /// What each hand weighs.
    closed spec fn view(&self) -> Seq<Single> {
        self.values@
    }
}

impl Weights {
    #[verifier::type_invariant]
    spec fn added_up(self) -> bool {
        self.total == sums::sum(self.values@)
    }

    /// The weights of a player's hands.
    pub fn new(values: &Vec<Single>) -> (r: Weights)
        ensures
            r@ == values@,
    {
        Weights { total: sums::sum_of(values), values: Ghost(values@) }
    }

    /// The sum of the weights.
    pub fn total(&self) -> (r: Double)
        ensures
            r == sums::sum(self@),
    {
        proof {
            use_type_invariant(self);
        }
        self.total
    }
}

/// What the engine has found for a player node: for every action and hand, how often the hand
/// takes the action, and how many chips it then expects.
pub struct Solution {
    n_actions: usize,
    n_hands: usize,
    strategy: Vec<u8>,
    ev: Option<(Vec<i16>, Single)>,
    frequencies: Ghost<Seq<Single>>,
    chips: Ghost<Seq<Single>>,
}

impl Solution {
    #[verifier::type_invariant]
    spec fn faithful(self) -> bool {
        &&& self.frequencies@.len() == self.n_actions * self.n_hands
        &&& self.frequencies@.len() <= usize::MAX
        &&& self.strategy@ == strategy::quantized(
            self.frequencies@,
            self.n_actions as int,
            self.n_hands as int,
        )
        &&& match self.ev {
            None => self.chips@.len() == 0,
            Some((values, scale)) => {
                &&& self.chips@.len() == self.n_actions * self.n_hands
                &&& values@ == ev::encoded(all_in_big_blinds(self.chips@))
                &&& scale == ev::scale_of(all_in_big_blinds(self.chips@))
            },
        }
    }

    /// How many actions there are.
    pub closed spec fn actions(self) -> nat {
        self.n_actions as nat
    }

    /// How many hands there are.
    pub closed spec fn hands(self) -> nat {
        self.n_hands as nat
    }

    /// How often each hand takes each action, action by action.
    pub closed spec fn frequencies(self) -> Seq<Single> {
        self.frequencies@
    }

    /// How many chips each hand expects after each action, action by action; nothing without EVs.
    pub closed spec fn chips(self) -> Seq<Single> {
        self.chips@
    }

    /// Whether there are EVs.
    pub closed spec fn has_ev(self) -> bool {
        self.ev is Some
    }

    /// What the engine has found, with EVs or without.
    pub fn new(strategy: &Vec<Single>, ev_chips: Option<&Vec<Single>>, n_actions: usize, n_hands: usize) -> (r:
        Result<Solution, Error>)
        ensures
            if strategy@.len() != n_actions * n_hands {
                r matches Err(e) && e == Error::StrategyLength(strategy@.len() as usize)
            } else if ev_chips is Some && ev_chips->0@.len() != n_actions * n_hands {
                r matches Err(e) && e == Error::EvLength(ev_chips->0@.len() as usize)
            } else {
                r matches Ok(s) && s.actions() == n_actions && s.hands() == n_hands && s.frequencies()
                    == strategy@ && s.has_ev() == (ev_chips is Some) && s.chips() == (match ev_chips {
                    Some(chips) => chips@,
                    None => Seq::empty(),
                })
            },
    {
        if !right_length(strategy.len(), n_actions, n_hands) {
            return Err(Error::StrategyLength(strategy.len()));
        }
        let bytes: Vec<u8> = quantize_strategy(strategy.as_slice(), n_actions, n_hands);
        match ev_chips {
            None => Ok(
                Solution {
                    n_actions,
                    n_hands,
                    strategy: bytes,
                    ev: None,
                    frequencies: Ghost(strategy@),
                    chips: Ghost(Seq::empty()),
                },
            ),
            Some(chips) => {
                if !right_length(chips.len(), n_actions, n_hands) {
                    return Err(Error::EvLength(chips.len()));
                }
                let evs: (Vec<i16>, Single) = quantize_ev(list_in_big_blinds(chips).as_slice());
                Ok(
                    Solution {
                        n_actions,
                        n_hands,
                        strategy: bytes,
                        ev: Some(evs),
                        frequencies: Ghost(strategy@),
                        chips: Ghost(chips@),
                    },
                )
            },
        }
    }

    /// How many actions and hands there are.
    pub fn shape(&self) -> (r: (usize, usize))
        ensures
            r.0 == self.actions(),
            r.1 == self.hands(),
            self.frequencies().len() == self.actions() * self.hands(),
    {
        proof {
            use_type_invariant(self);
        }
        (self.n_actions, self.n_hands)
    }

    /// Whether there are EVs.
    pub fn stores_ev(&self) -> (r: bool)
        ensures
            r == self.has_ev(),
            self.chips().len() == (if r {
                self.actions() * self.hands()
            } else {
                0
            }),
    {
        proof {
            use_type_invariant(self);
        }
        self.ev.is_some()
    }

    /// How many numbers a strategy of this shape has.
    pub(crate) fn len(&self) -> (r: usize)
        ensures
            r == self.frequencies().len(),
    {
        proof {
            use_type_invariant(self);
        }
        self.n_actions * self.n_hands
    }

    /// The strategy as a blob holds it.
    pub(crate) fn bytes(&self) -> (r: Vec<u8>)
        ensures
            r@ == strategy::quantized(
                self.frequencies(),
                self.actions() as int,
                self.hands() as int,
            ),
    {
        proof {
            use_type_invariant(self);
        }
        copy_u8(&self.strategy)
    }

    /// The EVs as a blob holds them, and their scale.
    pub(crate) fn evs(&self) -> (r: (Vec<i16>, Single))
        requires
            self.has_ev(),
        ensures
            r.0@ == ev::encoded(all_in_big_blinds(self.chips())),
            r.1 == ev::scale_of(all_in_big_blinds(self.chips())),
    {
        proof {
            use_type_invariant(self);
        }
        match &self.ev {
            Some((values, scale)) => (copy_i16(values), *scale),
            None => (Vec::new(), Single { bits: 0 }),
        }
    }
}

fn copy_i16(v: &Vec<i16>) -> (r: Vec<i16>)
    ensures
        r@ == v@,
{
    let mut out: Vec<i16> = Vec::new();
    for i in 0..v.len()
        invariant
            out@ == v@.take(i as int),
    {
        out.push(v[i]);
        assert(v@.take(i + 1) =~= v@.take(i as int).push(v@[i as int]));
    }
    assert(v@.take(v@.len() as int) =~= v@);
    out
}

} // verus!
