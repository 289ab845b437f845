//! What holds of the actions and the chips of stored nodes.

use vstd::arithmetic::power2;
use vstd::arithmetic::power2::pow2;
use vstd::prelude::*;

use crate::arith;
use crate::blob::{BlobAction, NodeModel};
use crate::export;
use crate::export::{Action, BlobKey, GameNode, Progress, Setting, NUM_KEYS};
use crate::export_laws;
use crate::ieee;
use crate::ieee::Single;
use crate::rounding;

verus! {

/// A hundredth of an amount of chips in binary32: the amount, which is exact below two to the 24 and
/// else the nearest binary32 number, over a hundred, with the amount's sign.
pub open spec fn hundredth(amount: int) -> Single {
    if amount == 0 {
        Single { bits: 0 }
    } else if amount > 0 {
        arith::single(arith::whole_single(amount).value(), 100)
    } else {
        Single {
            bits: (0x8000_0000 + arith::single(arith::whole_single(-amount).value(), 100).bits) as u32,
        }
    }
}

proof fn lemma_hundredth(n: int)
    requires
        0 < n <= 0x8000_0000,
    ensures
        arith::big_blinds_of(n) == arith::single(arith::whole_single(n).value(), 100),
{
    let t = pow2(149) as int;
    let hundred = Single { bits: 0x42C8_0000 };
    let v = arith::whole_single(n).value();
    power2::lemma_pow2_pos(149);
    power2::lemma2_to64();
    power2::lemma2_to64_rest();
    power2::lemma_pow2_adds(17, 132);
    let p = pow2(132) as int;
    assert(0xC8_0000 * p == 100 * (pow2(17) * p)) by (nonlinear_arith)
        requires
            pow2(17) == 0x2_0000,
    ;
    assert(hundred.value() == 100 * t);
    arith::lemma_whole_range(n);
    assert(n * t >= 0) by (nonlinear_arith)
        requires
            n > 0,
            t > 0,
    ;
    arith::lemma_single_rounded_value(n * t, 1);
    rounding::lemma_significand_bound(n * t, 1, 0x100_0000);
    let e = rounding::excess(n * t, 1, 0x100_0000);
    power2::lemma_pow2_pos(e);
    let q = rounding::significand(n * t, 1, 0x100_0000);
    let pe = pow2(e) as int;
    assert(q * pe >= 0) by (nonlinear_arith)
        requires
            q >= 0,
            pe > 0,
    ;
    assert(v >= 0);
    let x = v * t;
    assert(x >= 0 && x * 100 == v * (100 * t)) by (nonlinear_arith)
        requires
            x == v * t,
            v >= 0,
            t > 0,
    ;
    rounding::lemma_quotient_monotone(x, 100 * t, v, 100, 0x100_0000, 0x7F80_0000);
    rounding::lemma_quotient_monotone(v, 100, x, 100 * t, 0x100_0000, 0x7F80_0000);
}

/// An amount of chips is stored as a hundredth of it.
proof fn lemma_big_blinds(amount: int)
    requires
        -0x8000_0000 <= amount < 0x8000_0000,
    ensures
        arith::big_blinds_of(amount) == hundredth(amount),
{
    if amount > 0 {
        lemma_hundredth(amount);
    } else if amount < 0 {
        lemma_hundredth(-amount);
    }
}

/// Rounding is off by no more than half a unit of the last place.
proof fn lemma_half_unit(n: int, d: int, limit: int)
    requires
        n >= 0,
        d > 0,
        limit >= 2,
    ensures
        ({
            let c = d * pow2(rounding::excess(n, d, limit));
            -c <= 2 * (rounding::rounded(n, d, limit) * d - n) <= c
        }),
{
    let p = pow2(rounding::excess(n, d, limit)) as int;
    let c = d * p;
    let q = rounding::significand(n, d, limit);
    power2::lemma_pow2_pos(rounding::excess(n, d, limit));
    assert(c > 0) by (nonlinear_arith)
        requires
            c == d * p,
            d > 0,
            p > 0,
    ;
    assert((q * p) * d == q * c) by (nonlinear_arith)
        requires
            c == d * p,
    ;
    vstd::arithmetic::div_mod::lemma_fundamental_div_mod(n, c);
    let k = n / c;
    assert((k + 1) * c == k * c + c) by (nonlinear_arith);
    assert(c * k == k * c) by (nonlinear_arith);
}

/// Hundredths below two to the 24 are rounded once, from the quotient itself.
proof fn lemma_rounded_once(n: int)
    requires
        0 < n < 0x100_0000,
    ensures
        hundredth(n) == arith::single(n * pow2(149), 100),
        hundredth(n).bits < 0x7F80_0000,
{
    let t = pow2(149) as int;
    let x = n * t;
    power2::lemma_pow2_pos(149);
    arith::lemma_whole_is_exact_in_single(n);
    assert(x > 0 && x * 1 <= x * 100) by (nonlinear_arith)
        requires
            x == n * t,
            n > 0,
            t > 0,
    ;
    rounding::lemma_quotient_monotone(x, 100, x, 1, 0x100_0000, 0x7F80_0000);
    rounding::lemma_packed_range(x, 100, 0x100_0000, 0x7F80_0000);
    rounding::lemma_packed_range(x, 1, 0x100_0000, 0x7F80_0000);
}

/// A larger amount of chips is a larger number of big blinds, up to 131072 big blinds; beyond them
/// binary32 numbers are further apart than chips are.
pub proof fn law_larger_amounts_are_stored_larger(n: int, m: int)
    requires
        0 <= n < m < 13107200,
    ensures
        hundredth(n).bits < hundredth(m).bits,
{
    let limit: int = 0x100_0000;
    let t = pow2(149) as int;
    let x = n * t;
    let y = m * t;
    power2::lemma_pow2_pos(149);
    power2::lemma2_to64();
    power2::lemma2_to64_rest();
    lemma_rounded_once(m);
    assert(0 <= x && x + t <= y) by (nonlinear_arith)
        requires
            x == n * t,
            y == m * t,
            0 <= n < m,
            t > 0,
    ;
    if n > 0 {
        lemma_rounded_once(n);
    } else {
        assert(x == 0) by (nonlinear_arith)
            requires
                x == n * t,
                n == 0,
        ;
        arith::lemma_zero(100, limit);
    }
    assert(hundredth(n) == arith::single(x, 100));
    rounding::law_rounding_is_monotone(x, y, 100, limit, 0x7F80_0000);
    rounding::lemma_packed_range(x, 100, limit, 0x7F80_0000);
    rounding::lemma_packed_range(y, 100, limit, 0x7F80_0000);
    if hundredth(n).bits == hundredth(m).bits {
        assert(hundredth(n) == hundredth(m));
        arith::lemma_single_rounded_value(x, 100);
        arith::lemma_single_rounded_value(y, 100);
        let a = rounding::excess(x, 100, limit);
        let b = rounding::excess(y, 100, limit);
        rounding::lemma_excess_monotone(x, y, 100, limit);
        lemma_half_unit(x, 100, limit);
        lemma_half_unit(y, 100, limit);
        if a < b {
            power2::lemma_pow2_strictly_increases(a, b);
        }
        assert(pow2(a) <= pow2(b));
        assert(t <= 100 * pow2(b));
        power2::lemma_pow2_adds(142, 7);
        power2::lemma_pow2_adds(143, 6);
        power2::lemma_pow2_pos(142);
        if b <= 142 {
            if b < 142 {
                power2::lemma_pow2_strictly_increases(b, 142);
            }
            assert(t == 128 * pow2(142)) by (nonlinear_arith)
                requires
                    t == pow2(142) * pow2(7),
                    pow2(7) == 128,
            ;
            assert(false);
        }
        if b > 143 {
            power2::lemma_pow2_strictly_increases(143, b);
        }
        if y < limit * 100 {
            assert(b == 0);
        }
        rounding::lemma_divisor(y, 100, limit);
        let u = pow2(143) as int;
        let w = pow2(b) as int;
        assert(m >= 13107200) by (nonlinear_arith)
            requires
                limit * (100 * w) <= 2 * y,
                y == m * t,
                t == u * 64,
                w >= u,
                u > 0,
                limit == 0x100_0000,
        ;
    }
}

/// The chips that the players have put in before a node of a game.
pub open spec fn bets_at(node: GameNode) -> Seq<i32> {
    match node {
        GameNode::Terminal { bets } => bets@,
        GameNode::Chance { bets, .. } => bets@,
        GameNode::Player { bets, .. } => bets@,
    }
}

/// Whether an action is stored as what it is: folds are of kind 0, checks 1, calls 2, bets 3, raises
/// 4 and all-ins 5. The last three have the amount in big blinds, the others none. What is no action
/// of a player is stored as a check.
pub open spec fn is_action(action: Action, stored: BlobAction) -> bool {
    match action {
        Action::Fold => stored.kind == 0 && stored.amount.bits == 0,
        Action::Check => stored.kind == 1 && stored.amount.bits == 0,
        Action::Call => stored.kind == 2 && stored.amount.bits == 0,
        Action::Bet(chips) => stored.kind == 3 && stored.amount == hundredth(chips as int),
        Action::Raise(chips) => stored.kind == 4 && stored.amount == hundredth(chips as int),
        Action::AllIn(chips) => stored.kind == 5 && stored.amount == hundredth(chips as int),
        Action::Chance(_) => stored.kind == 1 && stored.amount.bits == 0,
        Action::Nothing => stored.kind == 1 && stored.amount.bits == 0,
    }
}

/// Whether a stored node is what a node of a game is: an end, a card's node or a player's, with the
/// player who acts, the actions in their order and what both players have put in.
pub open spec fn is_stored_as(node: GameNode, n: NodeModel) -> bool {
    &&& n.invest.0 == hundredth(bets_at(node)[0] as int)
    &&& n.invest.1 == hundredth(bets_at(node)[1] as int)
    &&& match node {
        GameNode::Terminal { .. } => {
            &&& n.kind == 2
            &&& n.player == 255
            &&& n.flags == 0
            &&& n.actions.len() == 0
            &&& n.children.len() == 0
            &&& n.strategy.len() == 0
            &&& n.ev.len() == 0
        },
        GameNode::Chance { .. } => {
            &&& n.kind == 1
            &&& n.player == 255
            &&& n.flags == 0
            &&& n.actions.len() == 0
            &&& n.children.len() == 52
            &&& n.strategy.len() == 0
            &&& n.ev.len() == 0
        },
        GameNode::Player { player, actions, .. } => {
            &&& n.kind == 0
            &&& n.player == player
            &&& n.actions.len() == actions@.len()
            &&& forall|i: int|
                0 <= i < actions@.len() ==> is_action(actions@[i], #[trigger] n.actions[i])
        },
    }
}

/// Every action is stored as what it is.
pub proof fn lemma_action(action: Action)
    ensures
        is_action(action, export::blob_action(action)),
{
    match action {
        Action::Bet(chips) => lemma_big_blinds(chips as int),
        Action::Raise(chips) => lemma_big_blinds(chips as int),
        Action::AllIn(chips) => lemma_big_blinds(chips as int),
        _ => {},
    }
}

/// Every node is stored as what it is, under its number: ends, cards' nodes and players', with the
/// chips put in and the amounts of the actions as hundredths. Two bets, raises or all-ins of
/// different amounts can so be told apart, up to 131072 big blinds, and amounts below two to the 24
/// are the quotients rounded once.
pub proof fn law_nodes_are_stored_as_what_they_are(set: Setting, p: Progress, key: BlobKey, node: GameNode)
    requires
        p.blobs.len() == NUM_KEYS,
        key.proper(),
        export::exported(set, p, key, node) is Ok,
    ensures
        ({
            let (q, index) = export::exported(set, p, key, node)->Ok_0;
            &&& q.blobs[key.place()] is Some
            &&& index < q.blobs[key.place()]->0.nodes.len()
            &&& q.blobs[key.place()]->0.nodes[index as int].id == index
            &&& is_stored_as(node, q.blobs[key.place()]->0.nodes[index as int])
        }),
        forall|n: int|
            0 < n < 0x100_0000 ==> #[trigger] hundredth(n) == arith::single(n * pow2(149), 100),
        forall|n: int, m: int|
            0 <= n < m < 13107200 ==> #[trigger] hundredth(n).bits < #[trigger] hundredth(m).bits,
{
    assert forall|n: int| 0 < n < 0x100_0000 implies #[trigger] hundredth(n) == arith::single(
        n * pow2(149),
        100,
    ) by {
        lemma_rounded_once(n);
    }
    assert forall|n: int, m: int| 0 <= n < m < 13107200 implies #[trigger] hundredth(n).bits
        < #[trigger] hundredth(m).bits by {
        law_larger_amounts_are_stored_larger(n, m);
    }
    let (q, index) = export::exported(set, p, key, node)->Ok_0;
    assert(q.blobs[key.place()] is Some && index < q.blobs[key.place()]->0.nodes.len()
        && q.blobs[key.place()]->0.nodes[index as int].id == index && is_stored_as(
        node,
        q.blobs[key.place()]->0.nodes[index as int],
    )) by {
        lemma_stored(set, p, key, node);
    }
}

#[verifier::rlimit(40)]
proof fn lemma_stored(set: Setting, p: Progress, key: BlobKey, node: GameNode)
    requires
        p.blobs.len() == NUM_KEYS,
        key.proper(),
        export::exported(set, p, key, node) is Ok,
    ensures
        ({
            let (q, index) = export::exported(set, p, key, node)->Ok_0;
            &&& q.blobs[key.place()] is Some
            &&& index < q.blobs[key.place()]->0.nodes.len()
            &&& q.blobs[key.place()]->0.nodes[index as int].id == index
            &&& is_stored_as(node, q.blobs[key.place()]->0.nodes[index as int])
        }),
{
    export_laws::lemma_key_at(key);
    export::lemma_reserved(set, p, key);
    let at = key.place();
    let (p1, index) = export::reserved(set, p, key)->Ok_0;
    let q = export::exported(set, p, key, node)->Ok_0.0;
    let bets = bets_at(node);
    lemma_big_blinds(bets[0] as int);
    lemma_big_blinds(bets[1] as int);
    match node {
        GameNode::Terminal { bets } => {},
        GameNode::Chance { bets, board, possible, actions, children } => {
            let turn = export::turn_of(board@);
            let folds = p1.trusted && export::agreed(set.iso, turn, possible, actions@);
            let list = export::stored_cards(set.iso, turn, possible, folds);
            let stored = turn is None || set.store_river;
            let p2 = Progress { trusted: folds, ..p1 };
            let keys = Seq::new(list.len(), |i: int| export::card_key(turn, list[i]));
            let count = if stored {
                list.len() as int
            } else {
                0
            };
            export::lemma_stored_cards(set.iso, turn, possible, folds);
            assert forall|i: int| 0 <= i < keys.len() implies (#[trigger] keys[i]).proper() by {
                assert(list[i] < 52);
                export::lemma_card_key(turn, list[i]);
            }
            export::lemma_exported_list_grows(set, p2, keys, children@, count);
            let p3 = export::exported_list(set, p2, keys, children@, count)->Ok_0.0;
            assert(p1.blobs[at] is Some);
            assert(p3.blobs[at] is Some);
        },
        GameNode::Player { bets, board_len, player, weights, actions, solution, children } => {
            let river = board_len == 5;
            let epsilon = if river {
                set.river_prune_epsilon
            } else {
                set.prune_epsilon
            };
            let n = actions@.len();
            if !export::reach_of(set.root[player as int], weights@).below(epsilon) {
                let p2 = Progress {
                    river_player_nodes: p1.river_player_nodes + (if river {
                        1int
                    } else {
                        0int
                    }),
                    ..p1
                };
                let keys = Seq::new(n, |i: int| key);
                export::lemma_exported_list_grows(set, p2, keys, children@, n as int);
                let p3 = export::exported_list(set, p2, keys, children@, n as int)->Ok_0.0;
                assert(p1.blobs[at] is Some);
                assert(p3.blobs[at] is Some);
            }
            let stored = q.blobs[at]->0.nodes[index as int];
            assert(stored.actions == Seq::new(n, |i: int| export::blob_action(actions@[i])));
            assert forall|i: int| 0 <= i < n implies is_action(
                actions@[i],
                #[trigger] stored.actions[i],
            ) by {
                lemma_action(actions@[i]);
            }
        },
    }
}

/// Two raises of a node that go to different amounts are stored with different amounts, the larger
/// with the larger one, up to 131072 big blinds; and so are two bets and two all-ins.
pub proof fn law_different_amounts_stay_different(
    set: Setting,
    p: Progress,
    key: BlobKey,
    node: GameNode,
    i: int,
    j: int,
)
    requires
        p.blobs.len() == NUM_KEYS,
        key.proper(),
        node is Player,
        export::exported(set, p, key, node) is Ok,
        0 <= i < node->Player_actions@.len(),
        0 <= j < node->Player_actions@.len(),
        0 <= chips_in(node->Player_actions@[i]) < chips_in(node->Player_actions@[j]) < 13107200,
    ensures
        ({
            let (q, index) = export::exported(set, p, key, node)->Ok_0;
            let stored = q.blobs[key.place()]->0.nodes[index as int].actions;
            stored[i].amount.value() < stored[j].amount.value() && stored[i].amount
                != stored[j].amount
        }),
{
    let n = chips_in(node->Player_actions@[i]);
    let m = chips_in(node->Player_actions@[j]);
    lemma_stored(set, p, key, node);
    law_larger_amounts_are_stored_larger(n, m);
    lemma_rounded_once(m);
    let (q, index) = export::exported(set, p, key, node)->Ok_0;
    let stored = q.blobs[key.place()]->0.nodes[index as int].actions;
    assert(is_action(node->Player_actions@[i], stored[i]));
    assert(is_action(node->Player_actions@[j], stored[j]));
    assert(stored[i].amount.bits == hundredth(n).bits);
    assert(stored[j].amount.bits == hundredth(m).bits);
    ieee::lemma_single_order(stored[i].amount, stored[j].amount);
}

/// The chips of an action: those of a bet, a raise or an all-in, and none of any other.
pub open spec fn chips_in(action: Action) -> int {
    match action {
        Action::Bet(chips) => chips as int,
        Action::Raise(chips) => chips as int,
        Action::AllIn(chips) => chips as int,
        _ => 0,
    }
}

} // verus!
