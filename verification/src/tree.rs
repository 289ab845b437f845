//! Suit isomorphism: which cards of a street are alike but for their suits.
//!
//! Cards are the engine's here. Two suits fold into one where the board has the same ranks in
//! both and both players' ranges treat them alike; the lower suit then stands for the other.

use vstd::prelude::*;

use crate::cards;
use crate::ieee::Single;

pub use crate::count::{count_nodes, NodeCount};
pub use crate::plan::{build_card_config, build_tree_config};

verus! {

/// The weights of one player's combos, by combo index.
#[derive(Debug, Clone, PartialEq, Eq)]
pub struct RangeWeights {
    pub weights: Vec<Single>,
}

impl RangeWeights {
    /// There is a weight for every combo.
    pub open spec fn complete(self) -> bool {
        self.weights@.len() == 1326
    }
}

/// The cards that a game starts from.
#[derive(Debug, Clone, PartialEq, Eq)]
pub struct CardConfig {
    /// Out-of-position player first.
    pub range: [RangeWeights; 2],
    pub flop: [u8; 3],
    pub turn: Option<u8>,
    pub river: Option<u8>,
}

impl CardConfig {
    pub open spec fn complete(self) -> bool {
        self.range@[0].complete() && self.range@[1].complete()
    }
}

/// The weight of the combo of two cards, in either order.
pub open spec fn weight_of(w: Seq<Single>, a: int, b: int) -> Single {
    if a < b {
        w[cards::combo(a, b)]
    } else {
        w[cards::combo(b, a)]
    }
}

/// A card with two suits exchanged.
pub open spec fn exchanged(card: int, s: int, t: int) -> int {
    if card % 4 == s {
        card - s + t
    } else if card % 4 == t {
        card - t + s
    } else {
        card
    }
}

/// Whether the combos of a card and each higher one have the same weights when two suits are
/// exchanged.
pub open spec fn row_alike(w: Seq<Single>, a: int, s: int, t: int) -> bool {
    forall|b: int|
        a < b < 52 ==> (#[trigger] weight_of(w, a, b)).same(
            weight_of(w, exchanged(a, s, t), exchanged(b, s, t)),
        )
}

/// Whether a range has the same weights when two suits are exchanged.
pub open spec fn alike(w: Seq<Single>, s: int, t: int) -> bool {
    forall|a: int| 0 <= a < 52 ==> #[trigger] row_alike(w, a, s, t)
}

/// Whether both ranges treat two suits alike.
pub open spec fn both_alike(oop: Seq<Single>, ip: Seq<Single>, s: int, t: int) -> bool {
    alike(oop, s, t) && alike(ip, s, t)
}

/// The first number from `k` on, below `n`, that has a property; `n` if there is none.
pub open spec fn first(p: spec_fn(int) -> bool, k: int, n: int) -> int
    decreases n - k,
{
    if k >= n {
        n
    } else if p(k) {
        k
    } else {
        first(p, k + 1, n)
    }
}

/// How many of the suits from 1 to `n - 1` are alike to no lower one.
pub open spec fn fresh(oop: Seq<Single>, ip: Seq<Single>, n: int) -> int
    decreases n,
{
    if n <= 1 {
        0
    } else {
        let m = first(|t: int| both_alike(oop, ip, t, n - 1), 0, n - 1);
        fresh(oop, ip, n - 1) + (if m == n - 1 {
            1int
        } else {
            0int
        })
    }
}

/// The class of a suit: that of the first lower suit that it is alike to, else a new one.
pub open spec fn class_of(oop: Seq<Single>, ip: Seq<Single>, s: int) -> int
    decreases s,
{
    if s <= 0 {
        0
    } else {
        let m = first(|t: int| both_alike(oop, ip, t, s), 0, s);
        if 0 <= m < s {
            class_of(oop, ip, m)
        } else {
            fresh(oop, ip, s + 1)
        }
    }
}

/// Whether a card is among others.
pub open spec fn among(board: Seq<u8>, card: int) -> bool {
    exists|i: int| 0 <= i < board.len() && #[trigger] board[i] == card
}

/// Whether a board has the same ranks in two suits. Codes up to 63 are told apart, though there are
/// only thirteen ranks.
pub open spec fn same_ranks(board: Seq<u8>, s: int, t: int) -> bool {
    forall|r: int|
        0 <= r < 16 ==> (#[trigger] among(board, 4 * r + s) <==> among(board, 4 * r + t))
}

/// What folding goes by: the suits' classes, the flop, and whether the game starts after it.
pub struct IsomorphismModel {
    pub class: Seq<u8>,
    pub flop: Seq<u8>,
    pub turn_fixed: bool,
}

impl IsomorphismModel {
    /// Whether suit `s` folds into `t` on the turn.
    pub open spec fn turn_folds(self, s: int, t: int) -> bool {
        !self.turn_fixed && same_ranks(self.flop, s, t) && self.class[s] == self.class[t]
    }

    /// Whether suit `s` folds into `t` on the river.
    pub open spec fn river_folds(self, turn: u8, s: int, t: int) -> bool {
        &&& self.turn_fixed || same_ranks(self.flop, s, t)
        &&& same_ranks(self.flop.push(turn), s, t)
        &&& self.class[s] == self.class[t]
    }

    /// The card that stands for a turn card.
    pub open spec fn turn_card(self, card: int) -> int {
        let s = card % 4;
        card - s + first(|t: int| self.turn_folds(s, t), 0, s)
    }

    /// The card that stands for a river card, after a turn card.
    pub open spec fn river_card(self, turn: u8, card: int) -> int {
        let s = card % 4;
        card - s + first(|t: int| self.river_folds(turn, s, t), 0, s)
    }

    /// The turn cards below `n` that stand for themselves, in order.
    pub open spec fn turn_cards(self, n: int) -> Seq<u8>
        decreases n,
    {
        if n <= 0 {
            Seq::empty()
        } else if !among(self.flop, n - 1) && self.turn_card(n - 1) == n - 1 {
            self.turn_cards(n - 1).push((n - 1) as u8)
        } else {
            self.turn_cards(n - 1)
        }
    }

    /// The river cards below `n` that stand for themselves, in order.
    pub open spec fn river_cards(self, turn: u8, n: int) -> Seq<u8>
        decreases n,
    {
        if n <= 0 {
            Seq::empty()
        } else if !among(self.flop.push(turn), n - 1) && self.river_card(turn, n - 1) == n - 1 {
            self.river_cards(turn, n - 1).push((n - 1) as u8)
        } else {
            self.river_cards(turn, n - 1)
        }
    }

    pub open spec fn well_formed(self) -> bool {
        self.class.len() == 4 && self.flop.len() == 3
    }
}

/// Which cards stand for which.
#[derive(Debug, Clone)]
pub struct Isomorphism {
    suit_class: [u8; 4],
    flop: [u8; 3],
    turn_fixed: bool,
}

impl View for Isomorphism {
    type V = IsomorphismModel;

    closed spec fn view(&self) -> IsomorphismModel {
        IsomorphismModel {
            class: self.suit_class@,
            flop: self.flop@,
            turn_fixed: self.turn_fixed,
        }
    }
}

/// What folding goes by for the cards that a game starts from.
pub open spec fn isomorphism_of(config: CardConfig) -> IsomorphismModel {
    IsomorphismModel {
        class: Seq::new(
            4,
            |s: int| class_of(config.range@[0].weights@, config.range@[1].weights@, s) as u8,
        ),
        flop: config.flop@,
        turn_fixed: config.turn is Some,
    }
}

fn exchange(card: u8, s: u8, t: u8) -> (r: u8)
    requires
        card < 52,
        s < 4,
        t < 4,
    ensures
        r == exchanged(card as int, s as int, t as int),
        r < 52,
{
    let suit: u8 = card % 4;
    if suit == s {
        card - s + t
    } else if suit == t {
        card - t + s
    } else {
        card
    }
}

impl RangeWeights {
    fn weight(&self, a: u8, b: u8) -> (r: Single)
        requires
            self.complete(),
            a < 52,
            b < 52,
            a != b,
        ensures
            r == weight_of(self.weights@, a as int, b as int),
    {
        let (lo, hi): (u8, u8) = if a < b {
            (a, b)
        } else {
            (b, a)
        };
        proof {
            cards::law_combo_range(lo as int, hi as int);
        }
        match cards::combo_index(lo, hi) {
            Ok(index) => self.weights[index as usize],
            Err(_) => Single { bits: 0 },
        }
    }

    /// Whether the combos of a card and each higher one have the same weights when two suits are
    /// exchanged.
    fn is_row_alike(&self, a: u8, s: u8, t: u8) -> (r: bool)
        requires
            self.complete(),
            a < 52,
            s < 4,
            t < 4,
            s != t,
        ensures
            r == row_alike(self.weights@, a as int, s as int, t as int),
    {
        let c: u8 = exchange(a, s, t);
        for b in a + 1..52u8
            invariant
                a < 52,
                self.complete(),
                s < 4,
                t < 4,
                s != t,
                c == exchanged(a as int, s as int, t as int),
                c < 52,
                forall|y: int|
                    a < y < b ==> (#[trigger] weight_of(self.weights@, a as int, y)).same(
                        weight_of(self.weights@, c as int, exchanged(y, s as int, t as int)),
                    ),
        {
            let d: u8 = exchange(b, s, t);
            if !self.weight(a, b).eq_number(&self.weight(c, d)) {
                assert(!weight_of(self.weights@, a as int, b as int).same(
                    weight_of(self.weights@, c as int, exchanged(b as int, s as int, t as int)),
                ));
                return false;
            }
        }
        true
    }

    /// Whether the range treats two suits alike.
    fn is_suit_isomorphic(&self, s: u8, t: u8) -> (r: bool)
        requires
            self.complete(),
            s < 4,
            t < 4,
            s != t,
        ensures
            r == alike(self.weights@, s as int, t as int),
    {
        for a in 0..52u8
            invariant
                self.complete(),
                s < 4,
                t < 4,
                s != t,
                forall|x: int|
                    0 <= x < a ==> #[trigger] row_alike(self.weights@, x, s as int, t as int),
        {
            if !self.is_row_alike(a, s, t) {
                return false;
            }
        }
        true
    }
}

/// The classes of the suits.
fn suit_isomorphism_classes(oop: &RangeWeights, ip: &RangeWeights) -> (r: [u8; 4])
    requires
        oop.complete(),
        ip.complete(),
    ensures
        forall|s: int|
            0 <= s < 4 ==> #[trigger] r@[s] == class_of(oop.weights@, ip.weights@, s) as u8,
{
    let mut classes: [u8; 4] = [0, 0, 0, 0];
    let mut next: u8 = 1;
    for s in 1..4u8
        invariant
            oop.complete(),
            ip.complete(),
            next == 1 + fresh(oop.weights@, ip.weights@, s as int),
            next <= s,
            forall|k: int|
                0 <= k < s ==> #[trigger] classes@[k] == class_of(oop.weights@, ip.weights@, k) as u8,
            forall|k: int|
                0 <= k < s ==> 0 <= #[trigger] class_of(oop.weights@, ip.weights@, k) < next,
    {
        let ghost p = |t: int| both_alike(oop.weights@, ip.weights@, t, s as int);
        let mut t: u8 = 0;
        while t < s && !(oop.is_suit_isomorphic(t, s) && ip.is_suit_isomorphic(t, s))
            invariant
                oop.complete(),
                ip.complete(),
                t <= s < 4,
                p == (|t: int| both_alike(oop.weights@, ip.weights@, t, s as int)),
                first(p, 0, s as int) == first(p, t as int, s as int),
            decreases s - t,
        {
            t = t + 1;
        }
        assert(first(p, 0, s as int) == t);
        if t < s {
            classes[s as usize] = classes[t as usize];
        } else {
            classes[s as usize] = next;
            next = next + 1;
        }
    }
    classes
}

fn is_among(board: &[u8], card: u8) -> (r: bool)
    ensures
        r == among(board@, card as int),
{
    for i in 0..board.len()
        invariant
            forall|j: int| 0 <= j < i ==> #[trigger] board@[j] != card,
    {
        if board[i] == card {
            return true;
        }
    }
    false
}

fn ranks_match(board: &[u8], s: u8, t: u8) -> (r: bool)
    requires
        s < 4,
        t < 4,
    ensures
        r == same_ranks(board@, s as int, t as int),
{
    for rank in 0..16u8
        invariant
            s < 4,
            t < 4,
            forall|k: int|
                0 <= k < rank ==> (#[trigger] among(board@, 4 * k + s) <==> among(
                    board@,
                    4 * k + t,
                )),
    {
        let a: bool = is_among(board, 4 * rank + s);
        let b: bool = is_among(board, 4 * rank + t);
        if a != b {
            assert(among(board@, 4 * rank + s) != among(board@, 4 * rank + t));
            return false;
        }
    }
    true
}

impl Isomorphism {
    /// There are four suits, and a flop has three cards.
    pub proof fn lemma_well_formed(&self)
        ensures
            self@.well_formed(),
    {
    }

    /// Which cards stand for which in a game that starts from these cards.
    pub fn new(card_config: &CardConfig) -> (r: Isomorphism)
        requires
            card_config.complete(),
        ensures
            r@ == isomorphism_of(*card_config),
    {
        let suit_class: [u8; 4] = suit_isomorphism_classes(
            &card_config.range[0],
            &card_config.range[1],
        );
        let r: Isomorphism = Isomorphism {
            suit_class,
            flop: card_config.flop,
            turn_fixed: card_config.turn.is_some(),
        };
        assert(r@.class =~= isomorphism_of(*card_config).class);
        r
    }

    /// The card that stands for a turn card.
    pub fn turn_representative(&self, card: u8) -> (r: u8)
        ensures
            r == self@.turn_card(card as int),
    {
        let suit: u8 = card % 4;
        let ghost p = |t: int| self@.turn_folds(suit as int, t);
        let mut t: u8 = 0;
        while t < suit
            invariant
                t <= suit < 4,
                suit == card % 4,
                p == (|t: int| self@.turn_folds(suit as int, t)),
                first(p, 0, suit as int) == first(p, t as int, suit as int),
            decreases suit - t,
        {
            if !self.turn_fixed && ranks_match(self.flop.as_slice(), suit, t)
                && self.suit_class[suit as usize] == self.suit_class[t as usize] {
                assert(p(t as int));
                return card - suit + t;
            }
            assert(!p(t as int));
            t = t + 1;
        }
        card
    }

    /// The card that stands for a river card, after a turn card.
    pub fn river_representative(&self, turn: u8, card: u8) -> (r: u8)
        ensures
            r == self@.river_card(turn, card as int),
    {
        let suit: u8 = card % 4;
        let board: [u8; 4] = [self.flop[0], self.flop[1], self.flop[2], turn];
        assert(board@ =~= self@.flop.push(turn));
        let ghost p = |t: int| self@.river_folds(turn, suit as int, t);
        let mut t: u8 = 0;
        while t < suit
            invariant
                t <= suit < 4,
                suit == card % 4,
                board@ == self@.flop.push(turn),
                p == (|t: int| self@.river_folds(turn, suit as int, t)),
                first(p, 0, suit as int) == first(p, t as int, suit as int),
            decreases suit - t,
        {
            let flop_ok: bool = self.turn_fixed || ranks_match(self.flop.as_slice(), suit, t);
            if flop_ok && ranks_match(board.as_slice(), suit, t) && self.suit_class[suit as usize]
                == self.suit_class[t as usize] {
                assert(p(t as int));
                return card - suit + t;
            }
            assert(!p(t as int));
            t = t + 1;
        }
        card
    }

    /// The turn cards that stand for themselves, in order.
    pub fn turn_representatives(&self) -> (r: Vec<u8>)
        ensures
            r@ == self@.turn_cards(52),
    {
        let mut out: Vec<u8> = Vec::new();
        for card in 0..52u8
            invariant
                out@ == self@.turn_cards(card as int),
        {
            if !is_among(self.flop.as_slice(), card) && self.turn_representative(card) == card {
                out.push(card);
            }
        }
        out
    }

    /// The river cards that stand for themselves after a turn card, in order.
    pub fn river_representatives(&self, turn: u8) -> (r: Vec<u8>)
        ensures
            r@ == self@.river_cards(turn, 52),
    {
        let board: [u8; 4] = [self.flop[0], self.flop[1], self.flop[2], turn];
        assert(board@ =~= self@.flop.push(turn));
        let mut out: Vec<u8> = Vec::new();
        for card in 0..52u8
            invariant
                board@ == self@.flop.push(turn),
                out@ == self@.river_cards(turn, card as int),
        {
            if !is_among(board.as_slice(), card) && self.river_representative(turn, card) == card {
                out.push(card);
            }
        }
        out
    }

    /// Whether two lists hold the same cards, each as often, in whatever order.
    pub fn verify(expected: &[u8], available: &[u8]) -> (r: bool)
        ensures
            r == (expected@.to_multiset() == available@.to_multiset()),
    {
        for k in 0..256u16
            invariant
                forall|c: u8|
                    c < k ==> #[trigger] expected@.to_multiset().count(c)
                        == available@.to_multiset().count(c),
        {
            if occurrences(expected, k as u8) != occurrences(available, k as u8) {
                return false;
            }
        }
        assert(expected@.to_multiset() =~= available@.to_multiset());
        true
    }
}

/// How often a card is in a list.
fn occurrences(list: &[u8], card: u8) -> (n: usize)
    ensures
        n == list@.to_multiset().count(card),
{
    let mut n: usize = 0;
    proof {
        broadcast use vstd::seq_lib::group_to_multiset_ensures;

        assert(list@.take(0) =~= Seq::empty());
    }
    for i in 0..list.len()
        invariant
            n == list@.take(i as int).to_multiset().count(card),
            n <= i,
    {
        proof {
            broadcast use vstd::seq_lib::group_to_multiset_ensures;

            assert(list@.take(i + 1) =~= list@.take(i as int).push(list@[i as int]));
        }
        if list[i] == card {
            n = n + 1;
        }
    }
    assert(list@.take(list@.len() as int) =~= list@);
    n
}

proof fn lemma_first(p: spec_fn(int) -> bool, k: int, n: int)
    requires
        k <= n,
    ensures
        k <= first(p, k, n) <= n,
        first(p, k, n) < n ==> p(first(p, k, n)),
        forall|j: int| k <= j < first(p, k, n) ==> !(#[trigger] p(j)),
    decreases n - k,
{
    if k < n && !p(k) {
        lemma_first(p, k + 1, n);
    }
}

proof fn lemma_same_ranks(board: Seq<u8>, s: int, t: int, u: int)
    requires
        same_ranks(board, s, t),
        same_ranks(board, t, u),
    ensures
        same_ranks(board, s, u),
{
    assert forall|r: int| 0 <= r < 16 implies (#[trigger] among(board, 4 * r + s) <==> among(
        board,
        4 * r + u,
    )) by {
        assert(among(board, 4 * r + s) <==> among(board, 4 * r + t));
        assert(among(board, 4 * r + t) <==> among(board, 4 * r + u));
    }
}

/// A card and the card that stands for it have the same rank; that card stands for itself, and
/// like the card it is not on the flop.
pub proof fn law_turn_representative(m: IsomorphismModel, card: int)
    requires
        m.well_formed(),
        0 <= card < 52,
    ensures
        0 <= m.turn_card(card) <= card,
        m.turn_card(card) / 4 == card / 4,
        m.turn_card(m.turn_card(card)) == m.turn_card(card),
        !among(m.flop, card) ==> !among(m.flop, m.turn_card(card)),
{
    let s = card % 4;
    let p = |t: int| m.turn_folds(s, t);
    lemma_first(p, 0, s);
    let t = first(p, 0, s);
    let r = m.turn_card(card);
    assert(r % 4 == t);
    if t < s {
        assert(m.turn_folds(s, t));
        let q = |x: int| m.turn_folds(t, x);
        lemma_first(q, 0, t);
        let u = first(q, 0, t);
        if u < t {
            assert(m.turn_folds(t, u));
            lemma_same_ranks(m.flop, s, t, u);
            assert(p(u));
        }
        let rank = card / 4;
        assert(card == 4 * rank + s && r == 4 * rank + t);
        assert(among(m.flop, 4 * rank + s) <==> among(m.flop, 4 * rank + t));
    }
}

/// The same after a turn card, for the board with that card.
pub proof fn law_river_representative(m: IsomorphismModel, turn: u8, card: int)
    requires
        m.well_formed(),
        0 <= card < 52,
    ensures
        0 <= m.river_card(turn, card) <= card,
        m.river_card(turn, card) / 4 == card / 4,
        m.river_card(turn, m.river_card(turn, card)) == m.river_card(turn, card),
        !among(m.flop.push(turn), card) ==> !among(m.flop.push(turn), m.river_card(turn, card)),
{
    let s = card % 4;
    let p = |t: int| m.river_folds(turn, s, t);
    lemma_first(p, 0, s);
    let t = first(p, 0, s);
    let r = m.river_card(turn, card);
    assert(r % 4 == t);
    if t < s {
        assert(m.river_folds(turn, s, t));
        let q = |x: int| m.river_folds(turn, t, x);
        lemma_first(q, 0, t);
        let u = first(q, 0, t);
        if u < t {
            assert(m.river_folds(turn, t, u));
            if !m.turn_fixed {
                lemma_same_ranks(m.flop, s, t, u);
            }
            lemma_same_ranks(m.flop.push(turn), s, t, u);
            assert(p(u));
        }
        let rank = card / 4;
        assert(card == 4 * rank + s && r == 4 * rank + t);
        assert(among(m.flop.push(turn), 4 * rank + s) <==> among(
            m.flop.push(turn),
            4 * rank + t,
        ));
    }
}

proof fn lemma_turn_cards(m: IsomorphismModel, n: int)
    requires
        0 <= n <= 52,
    ensures
        forall|c: u8|
            #[trigger] m.turn_cards(n).contains(c) <==> c < n && !among(m.flop, c as int)
                && m.turn_card(c as int) == c,
        forall|i: int, j: int|
            0 <= i < j < m.turn_cards(n).len() ==> (#[trigger] m.turn_cards(n)[i]) < (
            #[trigger] m.turn_cards(n)[j]),
        forall|i: int| 0 <= i < m.turn_cards(n).len() ==> #[trigger] m.turn_cards(n)[i] < n,
        m.turn_cards(n).len() <= n,
    decreases n,
{
    if n > 0 {
        lemma_turn_cards(m, n - 1);
        let before = m.turn_cards(n - 1);
        let list = m.turn_cards(n);
        if !among(m.flop, n - 1) && m.turn_card(n - 1) == n - 1 {
            let c = (n - 1) as u8;
            assert(list == before.push(c));
            assert forall|d: u8| #[trigger] list.contains(d) <==> d < n && !among(
                m.flop,
                d as int,
            ) && m.turn_card(d as int) == d by {
                if d == c {
                    assert(list[before.len() as int] == c);
                } else {
                    assert(before.contains(d) <==> list.contains(d)) by {
                        if before.contains(d) {
                            let i = choose|i: int| 0 <= i < before.len() && before[i] == d;
                            assert(list[i] == d);
                        }
                        if list.contains(d) {
                            let i = choose|i: int| 0 <= i < list.len() && list[i] == d;
                            assert(before[i] == d);
                        }
                    }
                }
            }
        }
    }
}

/// The turn cards that are listed are, in order and once each, those that are not on the flop and
/// stand for themselves; the card that stands for a card off the flop is among them.
pub proof fn law_turn_representatives(m: IsomorphismModel, card: u8)
    requires
        m.well_formed(),
    ensures
        m.turn_cards(52).contains(card) <==> card < 52 && !among(m.flop, card as int) && m.turn_card(
            card as int,
        ) == card,
        card < 52 && !among(m.flop, card as int) ==> m.turn_cards(52).contains(
            m.turn_card(card as int) as u8,
        ),
        forall|i: int, j: int|
            0 <= i < j < m.turn_cards(52).len() ==> (#[trigger] m.turn_cards(52)[i]) < (
            #[trigger] m.turn_cards(52)[j]),
{
    lemma_turn_cards(m, 52);
    if card < 52 {
        law_turn_representative(m, card as int);
        assert(m.turn_cards(52).contains(m.turn_card(card as int) as u8) <==> m.turn_card(
            card as int,
        ) < 52 && !among(m.flop, m.turn_card(card as int)) && m.turn_card(
            m.turn_card(card as int),
        ) == m.turn_card(card as int));
    }
}

proof fn lemma_river_cards(m: IsomorphismModel, turn: u8, n: int)
    requires
        0 <= n <= 52,
    ensures
        forall|c: u8|
            #[trigger] m.river_cards(turn, n).contains(c) <==> c < n && !among(m.flop.push(turn), c as int)
                && m.river_card(turn, c as int) == c,
        forall|i: int, j: int|
            0 <= i < j < m.river_cards(turn, n).len() ==> (#[trigger] m.river_cards(turn, n)[i]) < (
            #[trigger] m.river_cards(turn, n)[j]),
        forall|i: int| 0 <= i < m.river_cards(turn, n).len() ==> #[trigger] m.river_cards(turn, n)[i] < n,
        m.river_cards(turn, n).len() <= n,
    decreases n,
{
    if n > 0 {
        lemma_river_cards(m, turn, n - 1);
        let before = m.river_cards(turn, n - 1);
        let list = m.river_cards(turn, n);
        if !among(m.flop.push(turn), n - 1) && m.river_card(turn, n - 1) == n - 1 {
            let c = (n - 1) as u8;
            assert(list == before.push(c));
            assert forall|d: u8| #[trigger] list.contains(d) <==> d < n && !among(
                m.flop.push(turn),
                d as int,
            ) && m.river_card(turn, d as int) == d by {
                if d == c {
                    assert(list[before.len() as int] == c);
                } else {
                    assert(before.contains(d) <==> list.contains(d)) by {
                        if before.contains(d) {
                            let i = choose|i: int| 0 <= i < before.len() && before[i] == d;
                            assert(list[i] == d);
                        }
                        if list.contains(d) {
                            let i = choose|i: int| 0 <= i < list.len() && list[i] == d;
                            assert(before[i] == d);
                        }
                    }
                }
            }
        }
    }
}

/// The river cards that are listed after a turn card are, in order and once each, those that are
/// neither on the flop nor that card and stand for themselves; the card that stands for a card off
/// the board is among them.
pub proof fn law_river_representatives(m: IsomorphismModel, turn: u8, card: u8)
    requires
        m.well_formed(),
    ensures
        m.river_cards(turn, 52).contains(card) <==> card < 52 && !among(m.flop.push(turn), card as int) && m.river_card(
            turn,
            card as int,
        ) == card,
        card < 52 && !among(m.flop.push(turn), card as int) ==> m.river_cards(turn, 52).contains(
            m.river_card(turn, card as int) as u8,
        ),
        forall|i: int, j: int|
            0 <= i < j < m.river_cards(turn, 52).len() ==> (#[trigger] m.river_cards(turn, 52)[i]) < (
            #[trigger] m.river_cards(turn, 52)[j]),
{
    lemma_river_cards(m, turn, 52);
    if card < 52 {
        law_river_representative(m, turn, card as int);
        assert(m.river_cards(turn, 52).contains(m.river_card(turn, card as int) as u8) <==> m.river_card(
            turn,
            card as int,
        ) < 52 && !among(m.flop.push(turn), m.river_card(turn, card as int)) && m.river_card(
            turn,
            m.river_card(turn, card as int),
        ) == m.river_card(turn, card as int));
    }
}

} // verus!
