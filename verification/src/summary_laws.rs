//! What holds of an export as a whole: what it starts from, what its blobs say of themselves, which
//! EVs they hold, and what is said of it.

use vstd::arithmetic::power2;
use vstd::arithmetic::power2::pow2;
use vstd::prelude::*;

use crate::arith;
use crate::cards;
use crate::ev;
use crate::export;
use crate::export::{BlobKey, ExportOptions, GameNode, Progress, Root, Setting, NUM_KEYS};
use crate::export_laws;
use crate::files;
use crate::ieee;
use crate::ieee::{Double, Single};
use crate::money_laws;
use crate::rounding;
use crate::signed;
use crate::solution;
use crate::subtree_laws;
use crate::sums;
use crate::tree::IsomorphismModel;

verus! {

/// An export starts from the players' hands in their order, each as the combo of its two cards; from
/// what each player's hands weigh; from the first three cards of the board; and from what the options
/// say. A player whose hands weigh nothing is refused.
pub proof fn law_exports_start_from_the_root(root: Root, iso: IsomorphismModel, options: ExportOptions)
    requires
        export::opened(root, iso, options) is Ok,
    ensures
        ({
            let set = export::opened(root, iso, options)->Ok_0;
            let board = root.board@;
            &&& set.oop.len() == root.private_cards@[0]@.len()
            &&& set.ip.len() == root.private_cards@[1]@.len()
            &&& forall|i: int|
                0 <= i < set.oop.len() ==> is_combo(root.private_cards@[0]@[i], #[trigger] set.oop[i])
            &&& forall|i: int|
                0 <= i < set.ip.len() ==> is_combo(root.private_cards@[1]@[i], #[trigger] set.ip[i])
            &&& set.root.len() == 2
            &&& set.root[0] == sums::sum(root.weights@[0]@)
            &&& set.root[1] == sums::sum(root.weights@[1]@)
            &&& !set.root[0].at_most(Double { bits: 0 })
            &&& !set.root[1].at_most(Double { bits: 0 })
            &&& board.len() >= 3 ==> set.flop.len() == 3
            &&& forall|i: int|
                0 <= i < set.flop.len() ==> (#[trigger] set.flop[i]) / 4 == board[i] / 4 && set.flop[i]
                    % 4 + board[i] % 4 == 3
            &&& set.header == options.header@
            &&& set.store_river == options.store_river
            &&& set.prune_epsilon == options.prune_epsilon
            &&& set.river_prune_epsilon == options.river_prune_epsilon
            &&& set.river_ev == options.river_ev
            &&& set.compress == options.compress
            &&& set.iso == iso
        }),
{
    let oop = root.private_cards@[0]@;
    let ip = root.private_cards@[1]@;
    lemma_combos(oop, oop.len() as int);
    lemma_combos(ip, ip.len() as int);
}

/// Whether an index is that of the combo of a hand of the engine: the triangle of the higher card,
/// and the lower card, with the suits counted from the other end.
pub open spec fn is_combo(hand: (u8, u8), index: u16) -> bool {
    exists|lo: int, hi: int|
        {
            &&& 0 <= lo < hi < 52
            &&& #[trigger] same_cards(hand, lo, hi)
            &&& 2 * (index - lo) == hi * (hi - 1)
        }
}

/// Whether two cards of ours are those of a hand of the engine, in whatever order.
pub open spec fn same_cards(hand: (u8, u8), lo: int, hi: int) -> bool {
    let a = hand.0 / 4 * 4 + (3 - hand.0 % 4);
    let b = hand.1 / 4 * 4 + (3 - hand.1 % 4);
    (lo == a && hi == b) || (lo == b && hi == a)
}

proof fn lemma_combos(hands: Seq<(u8, u8)>, k: int)
    requires
        0 <= k <= hands.len(),
        export::combos_of(hands, k) is Ok,
    ensures
        export::combos_of(hands, k)->Ok_0.len() == k,
        forall|i: int|
            0 <= i < k ==> is_combo(hands[i], #[trigger] export::combos_of(hands, k)->Ok_0[i]),
    decreases k,
{
    if k > 0 {
        lemma_combos(hands, k - 1);
        let list = export::combos_of(hands, k)->Ok_0;
        let before = export::combos_of(hands, k - 1)->Ok_0;
        let hand = hands[k - 1];
        let a = cards::swapped(hand.0 as int);
        let b = cards::swapped(hand.1 as int);
        cards::law_swap_is_its_own_inverse(hand.0 as int);
        cards::law_swap_is_its_own_inverse(hand.1 as int);
        assert(0 <= a < 256 && 0 <= b < 256);
        let lo = if a < b {
            a
        } else {
            b
        };
        let hi = if a < b {
            b
        } else {
            a
        };
        cards::law_combo_range(lo, hi);
        assert(same_cards(hand, lo, hi));
        lemma_even(hi);
        assert(is_combo(hand, list[k - 1]));
        assert forall|i: int| 0 <= i < k implies is_combo(hands[i], #[trigger] list[i]) by {
            if i < k - 1 {
                assert(list[i] == before[i]);
            }
        }
    }
}

proof fn lemma_even(n: int)
    requires
        0 <= n < 256,
    ensures
        2 * (n * (n - 1) / 2) == n * (n - 1),
{
    assert(n * (n - 1) % 2 == 0) by (nonlinear_arith)
        requires
            0 <= n < 256,
    {
        let h = n / 2;
        if n % 2 == 0 {
            assert(n == 2 * h);
            assert(n * (n - 1) == 2 * (h * (n - 1))) by (nonlinear_arith)
                requires
                    n == 2 * h,
            ;
        } else {
            assert(n == 2 * h + 1);
            assert(n * (n - 1) == 2 * (h * n)) by (nonlinear_arith)
                requires
                    n == 2 * h + 1,
            ;
        }
    };
}

/// Every blob names its own board and street: the turn's has the flop and the turn card, the river's
/// both cards, and the street is the number of cards less three. All else is as in the first blob,
/// and so are the hands.
pub proof fn law_blobs_name_their_boards(set: Setting, p: Progress, key: BlobKey)
    requires
        export_laws::sound(set, p),
        key.proper(),
        p.blobs[key.place()] is Some,
    ensures
        ({
            let b = p.blobs[key.place()]->0;
            let h = b.header;
            &&& b.oop == set.oop
            &&& b.ip == set.ip
            &&& match key {
                BlobKey::Start => h.board == set.header.board && h.street == set.header.street,
                BlobKey::Turn(turn) => h.board == set.flop + seq![turn] && h.street == 1,
                BlobKey::River(turn, river) => h.board == set.flop + seq![turn, river] && h.street
                    == 2,
            }
            &&& !(key is Start) && set.flop.len() == 3 ==> h.street == h.board.len() - 3
            &&& h.scenario_id == set.header.scenario_id
            &&& h.template_id == set.header.template_id
            &&& h.solver_version == set.header.solver_version
            &&& h.starting_pot == set.header.starting_pot
            &&& h.effective_stack == set.header.effective_stack
            &&& h.rake_percent == set.header.rake_percent
            &&& h.rake_cap == set.header.rake_cap
            &&& h.exploitability_pct == set.header.exploitability_pct
            &&& h.iterations == set.header.iterations
        }),
{
    export_laws::lemma_key_at(key);
    assert(export_laws::blob_sound(set, key.place(), p.blobs[key.place()]->0));
    match key {
        BlobKey::Start => {},
        BlobKey::Turn(turn) => {
            assert(set.flop.push(turn) =~= set.flop + seq![turn]);
        },
        BlobKey::River(turn, river) => {
            assert(set.flop.push(turn).push(river) =~= set.flop + seq![turn, river]);
        },
    }
}

/// What a number of chips is in big blinds: a hundredth, rounded once, with the same sign; what is
/// no number stays as it is.
pub open spec fn a_hundredth(v: Single) -> Single {
    if !v.finite() {
        v
    } else if v.negative() {
        signed::single_with_sign(arith::single(-v.value(), 100), true)
    } else {
        arith::single(v.value(), 100)
    }
}

/// The EVs of a player node that has them are those that the engine has found, in big blinds, by
/// their scale.
#[verifier::rlimit(40)]
pub proof fn law_evs_are_in_big_blinds(set: Setting, p: Progress, key: BlobKey, node: GameNode)
    requires
        p.blobs.len() == NUM_KEYS,
        key.proper(),
        node is Player,
        export::exported(set, p, key, node) is Ok,
    ensures
        ({
            let (q, index) = export::exported(set, p, key, node)->Ok_0;
            let n = subtree_laws::node_at(q, key, index as int);
            n.flags == 2 ==> {
                let chips = node->solution->0.chips();
                let values = Seq::new(chips.len(), |i: int| a_hundredth(chips[i]));
                &&& node->solution is Some
                &&& n.ev == ev::encoded(values)
                &&& n.ev_scale == ev::scale_of(values)
            }
        }),
{
    export_laws::lemma_key_at(key);
    export::lemma_reserved(set, p, key);
    let at = key.place();
    let (p1, index) = export::reserved(set, p, key)->Ok_0;
    let q = export::exported(set, p, key, node)->Ok_0.0;
    match node {
        GameNode::Player { bets, board_len, player, weights, actions, solution, children } => {
            let river = board_len == 5;
            let epsilon = if river {
                set.river_prune_epsilon
            } else {
                set.prune_epsilon
            };
            let n = actions@.len();
            if !export::reach_of(set.root[player as int], weights@).below(epsilon) {
                let p2 = Progress {
                    river_player_nodes: p1.river_player_nodes + (if river {
                        1int
                    } else {
                        0int
                    }),
                    ..p1
                };
                let keys = Seq::new(n, |i: int| key);
                export::lemma_exported_list_grows(set, p2, keys, children@, n as int);
                let p3 = export::exported_list(set, p2, keys, children@, n as int)->Ok_0.0;
                assert(p1.blobs[at] is Some);
                assert(p3.blobs[at] is Some);
                let chips = solution->0.chips();
                let values = Seq::new(chips.len(), |i: int| a_hundredth(chips[i]));
                assert(solution::all_in_big_blinds(chips) =~= values) by {
                    assert forall|i: int| 0 <= i < chips.len() implies solution::in_big_blinds(chips[i])
                        == a_hundredth(chips[i]) by {
                        money_laws::law_expected_chips_are_divided(chips[i]);
                    }
                }
            }
        },
        _ => {},
    }
}

/// The scale of EVs is that of which the largest, signs left out, is 32767: no finite one is larger,
/// and one of them is as large. Where all are zero the scale is one.
pub proof fn law_scales_fit_the_largest(values: Seq<Single>) -> (max: Single)
    ensures
        max.bits < 0x7F80_0000,
        forall|i: int|
            0 <= i < values.len() && (#[trigger] values[i]).finite() ==> -max.value()
                <= values[i].value() <= max.value(),
        max.bits != 0 ==> exists|i: int|
            0 <= i < values.len() && (#[trigger] values[i]).finite() && (values[i].value()
                == max.value() || values[i].value() == -max.value()),
        ev::scale_of(values) == (if max.bits == 0 {
            Single { bits: 0x3F80_0000 }
        } else {
            arith::single(max.value(), 32767)
        }),
{
    let n = values.len() as int;
    let max = Single { bits: ev::largest(values, n) as u32 };
    lemma_largest(values, n);
    assert forall|i: int| 0 <= i < values.len() && (#[trigger] values[i]).finite() implies -max.value()
        <= values[i].value() <= max.value() by {
        let a = ev::unsigned(values[i]);
        ieee::lemma_single_order(max, a);
        assert(a.exponent() == values[i].exponent() && a.fraction() == values[i].fraction());
    }
    if max.bits != 0 {
        let i = choose|i: int|
            0 <= i < n && (#[trigger] values[i]).finite() && values[i].abs_bits() == max.bits;
        let a = ev::unsigned(values[i]);
        assert(a.exponent() == values[i].exponent() && a.fraction() == values[i].fraction());
        assert(a == max);
        assert(values[i].value() == max.value() || values[i].value() == -max.value());
        let t = pow2(149) as int;
        power2::lemma_pow2_pos(149);
        power2::lemma2_to64();
        power2::lemma_pow2_adds(9, 140);
        let q = pow2(140) as int;
        assert(0xFF_FE00 * q == 32767 * (pow2(9) * q)) by (nonlinear_arith)
            requires
                pow2(9) == 512,
        ;
        let c = Single { bits: ev::LARGEST };
        assert(c.value() == 32767 * t);
        ieee::lemma_single_zero(max);
        let v = max.value();
        let x = v * t;
        assert(x >= 0 && x * 32767 == v * (32767 * t)) by (nonlinear_arith)
            requires
                x == v * t,
                v >= 0,
                t > 0,
        ;
        rounding::lemma_quotient_monotone(x, 32767 * t, v, 32767, 0x100_0000, 0x7F80_0000);
        rounding::lemma_quotient_monotone(v, 32767, x, 32767 * t, 0x100_0000, 0x7F80_0000);
    }
    max
}

proof fn lemma_largest(values: Seq<Single>, k: int)
    requires
        0 <= k <= values.len(),
    ensures
        0 <= ev::largest(values, k) < 0x7F80_0000,
        forall|i: int|
            0 <= i < k && (#[trigger] values[i]).finite() ==> values[i].abs_bits() <= ev::largest(
                values,
                k,
            ),
        ev::largest(values, k) > 0 ==> exists|i: int|
            0 <= i < k && (#[trigger] values[i]).finite() && values[i].abs_bits() == ev::largest(
                values,
                k,
            ),
    decreases k,
{
    if k > 0 {
        lemma_largest(values, k - 1);
        let before = ev::largest(values, k - 1);
        if values[k - 1].finite() && values[k - 1].abs_bits() > before {
            assert(values[k - 1].abs_bits() == ev::largest(values, k));
        } else if before > 0 {
            let i = choose|i: int|
                0 <= i < k - 1 && (#[trigger] values[i]).finite() && values[i].abs_bits() == before;
            assert(values[i].abs_bits() == ev::largest(values, k));
        }
    }
}

/// How many of the stored player nodes of a subtree have no body.
pub open spec fn pruned_in(set: Setting, node: GameNode) -> int
    decreases node, 0int,
{
    match node {
        GameNode::Terminal { .. } => 0,
        GameNode::Chance { board, children, .. } => if export::turn_of(board@) is None
            || set.store_river {
            pruned_among(set, children@, children@.len() as int)
        } else {
            0
        },
        GameNode::Player { board_len, player, weights, children, .. } => if too_rare(
            set,
            player,
            weights@,
            board_len,
        ) {
            1
        } else {
            pruned_among(set, children@, children@.len() as int)
        },
    }
}

/// The same of the first `k` of some subtrees.
pub open spec fn pruned_among(set: Setting, nodes: Seq<GameNode>, k: int) -> int
    decreases nodes, k,
{
    if k <= 0 || k > nodes.len() {
        0
    } else {
        pruned_among(set, nodes, k - 1) + pruned_in(set, nodes[k - 1])
    }
}

/// How many of the stored player nodes of a subtree are on the river and have a body.
pub open spec fn rivers_in(set: Setting, node: GameNode) -> int
    decreases node, 0int,
{
    match node {
        GameNode::Terminal { .. } => 0,
        GameNode::Chance { board, children, .. } => if export::turn_of(board@) is None
            || set.store_river {
            rivers_among(set, children@, children@.len() as int)
        } else {
            0
        },
        GameNode::Player { board_len, player, weights, children, .. } => if too_rare(
            set,
            player,
            weights@,
            board_len,
        ) {
            0
        } else if board_len == 5 {
            1 + rivers_among(set, children@, children@.len() as int)
        } else {
            rivers_among(set, children@, children@.len() as int)
        },
    }
}

/// The same of the first `k` of some subtrees.
pub open spec fn rivers_among(set: Setting, nodes: Seq<GameNode>, k: int) -> int
    decreases nodes, k,
{
    if k <= 0 || k > nodes.len() {
        0
    } else {
        rivers_among(set, nodes, k - 1) + rivers_in(set, nodes[k - 1])
    }
}

/// Whether a node is reached by less of its player's range than the threshold of its street: what of
/// the range gets there, over what it weighs at the root.
pub open spec fn too_rare(set: Setting, player: u8, weights: Seq<Single>, board_len: usize) -> bool {
    let part = signed::quotient(sums::sum(weights), set.root[player as int]);
    if board_len == 5 {
        part.below(set.river_prune_epsilon)
    } else {
        part.below(set.prune_epsilon)
    }
}

/// An export counts the player nodes that it stores without a body, and those on the river that it
/// stores with one.
#[verifier::rlimit(40)]
pub proof fn law_player_nodes_are_counted(set: Setting, p: Progress, key: BlobKey, node: GameNode)
    requires
        export::exported(set, p, key, node) is Ok,
    ensures
        ({
            let q = export::exported(set, p, key, node)->Ok_0.0;
            &&& q.pruned_nodes == p.pruned_nodes + pruned_in(set, node)
            &&& q.river_player_nodes == p.river_player_nodes + rivers_in(set, node)
        }),
    decreases node, 0int,
{
    let (p1, index) = export::reserved(set, p, key)->Ok_0;
    match node {
        GameNode::Terminal { bets } => {},
        GameNode::Chance { bets, board, possible, actions, children } => {
            let turn = export::turn_of(board@);
            let folds = p1.trusted && export::agreed(set.iso, turn, possible, actions@);
            let list = export::stored_cards(set.iso, turn, possible, folds);
            let stored = turn is None || set.store_river;
            let p2 = Progress { trusted: folds, ..p1 };
            let keys = Seq::new(list.len(), |i: int| export::card_key(turn, list[i]));
            if stored {
                lemma_lists_are_counted(set, p2, keys, children@, list.len() as int);
            }
        },
        GameNode::Player { bets, board_len, player, weights, actions, solution, children } => {
            let river = board_len == 5;
            let epsilon = if river {
                set.river_prune_epsilon
            } else {
                set.prune_epsilon
            };
            if !export::reach_of(set.root[player as int], weights@).below(epsilon) {
                let p2 = Progress {
                    river_player_nodes: p1.river_player_nodes + (if river {
                        1int
                    } else {
                        0int
                    }),
                    ..p1
                };
                let keys = Seq::new(actions@.len(), |i: int| key);
                lemma_lists_are_counted(set, p2, keys, children@, actions@.len() as int);
            }
        },
    }
}

proof fn lemma_lists_are_counted(set: Setting, p: Progress, keys: Seq<BlobKey>, nodes: Seq<GameNode>, k: int)
    requires
        export::exported_list(set, p, keys, nodes, k) is Ok,
    ensures
        ({
            let q = export::exported_list(set, p, keys, nodes, k)->Ok_0.0;
            &&& q.pruned_nodes == p.pruned_nodes + pruned_among(set, nodes, k)
            &&& q.river_player_nodes == p.river_player_nodes + rivers_among(set, nodes, k)
        }),
    decreases nodes, k,
{
    if 0 < k <= nodes.len() {
        lemma_lists_are_counted(set, p, keys, nodes, k - 1);
        let q = export::exported_list(set, p, keys, nodes, k - 1)->Ok_0.0;
        law_player_nodes_are_counted(set, q, keys[k - 1], nodes[k - 1]);
    }
}

/// The place of a card in the order of names.
spec fn place_by_name(card: int) -> int {
    let rank = card / 4;
    let letter = if rank < 8 {
        rank
    } else if rank == 12 {
        8
    } else if rank == 9 {
        9
    } else if rank == 11 {
        10
    } else if rank == 10 {
        11
    } else {
        12
    };
    letter * 4 + (3 - card % 4)
}

proof fn lemma_place_by_name(card: int)
    requires
        0 <= card < 52,
    ensures
        0 <= place_by_name(card) < 52,
        files::card_by_name(place_by_name(card)) == card,
{
    let i = place_by_name(card);
    let rank = card / 4;
    assert(0 <= rank < 13);
    assert(i / 4 == (i - i % 4) / 4);
    assert(i % 4 == 3 - card % 4);
    assert(files::RANKS_BY_LETTER@[i / 4] == rank);
}

proof fn lemma_names(marked: Seq<bool>, k: int)
    requires
        0 <= k <= 52,
    ensures
        forall|i: int|
            0 <= i < k && marked[#[trigger] files::card_by_name(i)] ==> export::names_of(marked, k).contains(
                cards::card_text(files::card_by_name(i)),
            ),
        forall|name: Seq<char>|
            #[trigger] export::names_of(marked, k).contains(name) ==> exists|i: int|
                0 <= i < k && marked[#[trigger] files::card_by_name(i)] && name == cards::card_text(
                    files::card_by_name(i),
                ),
    decreases k,
{
    if k > 0 {
        lemma_names(marked, k - 1);
        let before = export::names_of(marked, k - 1);
        let list = export::names_of(marked, k);
        let last = files::card_by_name(k - 1);
        assert forall|i: int|
            0 <= i < k && marked[#[trigger] files::card_by_name(i)] implies list.contains(
            cards::card_text(files::card_by_name(i)),
        ) by {
            let name = cards::card_text(files::card_by_name(i));
            if i < k - 1 {
                assert(before.contains(name));
                let j = choose|j: int| 0 <= j < before.len() && before[j] == name;
                assert(list[j] == name);
            } else {
                assert(list[list.len() - 1] == name);
            }
        }
        assert forall|name: Seq<char>| #[trigger] list.contains(name) implies exists|i: int|
            0 <= i < k && marked[#[trigger] files::card_by_name(i)] && name == cards::card_text(
                files::card_by_name(i),
            ) by {
            let j = choose|j: int| 0 <= j < list.len() && list[j] == name;
            if j < before.len() {
                assert(before[j] == name);
                assert(before.contains(name));
            } else {
                assert(name == cards::card_text(last));
            }
        }
    }
}

/// The turn cards that are named are exactly those that are marked.
pub proof fn law_marked_cards_are_named(marked: Seq<bool>, card: int)
    requires
        0 <= card < 52,
    ensures
        export::names_of(marked, 52).contains(cards::card_text(card)) <==> marked[card],
{
    lemma_names(marked, 52);
    lemma_place_by_name(card);
    if export::names_of(marked, 52).contains(cards::card_text(card)) {
        let i = choose|i: int|
            0 <= i < 52 && marked[#[trigger] files::card_by_name(i)] && cards::card_text(card)
                == cards::card_text(files::card_by_name(i));
        let other = files::card_by_name(i);
        if i < 51 {
            files::law_names_are_sorted(i, 51);
        } else {
            files::law_names_are_sorted(50, 51);
            assert(files::RANKS_BY_LETTER@[12] == 8);
        }
        cards::law_card_text_round_trip(card);
        cards::law_card_text_round_trip(other);
    }
}

proof fn lemma_pairs(stand_ins: Seq<Option<u8>>, k: int)
    requires
        0 <= k <= 52,
    ensures
        forall|i: int|
            0 <= i < k && stand_ins[#[trigger] files::card_by_name(i)] is Some ==> export::pairs_of(
                stand_ins,
                k,
            ).contains(
                (
                    cards::card_text(files::card_by_name(i)),
                    cards::card_text(stand_ins[files::card_by_name(i)]->0 as int),
                ),
            ),
        forall|pair: (Seq<char>, Seq<char>)|
            #[trigger] export::pairs_of(stand_ins, k).contains(pair) ==> exists|i: int|
                {
                    let card = #[trigger] files::card_by_name(i);
                    0 <= i < k && stand_ins[card] is Some && pair == (
                        cards::card_text(card),
                        cards::card_text(stand_ins[card]->0 as int),
                    )
                },
    decreases k,
{
    if k > 0 {
        lemma_pairs(stand_ins, k - 1);
        let before = export::pairs_of(stand_ins, k - 1);
        let list = export::pairs_of(stand_ins, k);
        let last = files::card_by_name(k - 1);
        assert forall|i: int|
            0 <= i < k && stand_ins[#[trigger] files::card_by_name(i)] is Some implies list.contains(
            (
                cards::card_text(files::card_by_name(i)),
                cards::card_text(stand_ins[files::card_by_name(i)]->0 as int),
            ),
        ) by {
            let pair = (
                cards::card_text(files::card_by_name(i)),
                cards::card_text(stand_ins[files::card_by_name(i)]->0 as int),
            );
            if i < k - 1 {
                assert(before.contains(pair));
                let j = choose|j: int| 0 <= j < before.len() && before[j] == pair;
                assert(list[j] == pair);
            } else {
                assert(list[list.len() - 1] == pair);
            }
        }
        assert forall|pair: (Seq<char>, Seq<char>)| #[trigger] list.contains(pair) implies exists|i: int|
            {
                let card = #[trigger] files::card_by_name(i);
                0 <= i < k && stand_ins[card] is Some && pair == (
                    cards::card_text(card),
                    cards::card_text(stand_ins[card]->0 as int),
                )
            } by {
            let j = choose|j: int| 0 <= j < list.len() && list[j] == pair;
            if j < before.len() {
                assert(before[j] == pair);
                assert(before.contains(pair));
            } else {
                assert(stand_ins[last] is Some);
            }
        }
    }
}

/// The pairs that are named are exactly those of a card and the card that stands for it.
pub proof fn law_stand_ins_are_named(stand_ins: Seq<Option<u8>>, card: int, other: int)
    requires
        0 <= card < 52,
        0 <= other < 52,
        forall|c: int|
            0 <= c < 52 && (#[trigger] stand_ins[c]) is Some ==> stand_ins[c]->0 < 52,
    ensures
        export::pairs_of(stand_ins, 52).contains((cards::card_text(card), cards::card_text(other)))
            <==> stand_ins[card] == Some(other as u8),
{
    lemma_pairs(stand_ins, 52);
    lemma_place_by_name(card);
    let pair = (cards::card_text(card), cards::card_text(other));
    if export::pairs_of(stand_ins, 52).contains(pair) {
        let i = choose|i: int|
            {
                let c = #[trigger] files::card_by_name(i);
                0 <= i < 52 && stand_ins[c] is Some && pair == (
                    cards::card_text(c),
                    cards::card_text(stand_ins[c]->0 as int),
                )
            };
        let c = files::card_by_name(i);
        if i < 51 {
            files::law_names_are_sorted(i, 51);
        } else {
            files::law_names_are_sorted(50, 51);
            assert(files::RANKS_BY_LETTER@[12] == 8);
        }
        assert(stand_ins[c] is Some);
        cards::law_card_text_round_trip(card);
        cards::law_card_text_round_trip(c);
        cards::law_card_text_round_trip(other);
        cards::law_card_text_round_trip(stand_ins[c]->0 as int);
    }
}

} // verus!
