//! What holds of games that are prepared for an export node by node.

use vstd::prelude::*;

use crate::blob;
use crate::error::Error;
use crate::export;
use crate::export::{BlobKey, GameNode, Progress, Setting, Solution};
use crate::ieee::Single;

verus! {

/// Whether a player node is stored without a body.
pub open spec fn pruned(set: Setting, player: u8, weights: Seq<Single>, board_len: usize) -> bool {
    export::reach_of(set.root[player as int], weights).below(
        if board_len == 5 {
            set.river_prune_epsilon
        } else {
            set.prune_epsilon
        },
    )
}

/// What was found for a node has the numbers that the node is stored with.
pub open spec fn solved(set: Setting, player: u8, board_len: usize, n: nat, solution: Option<Solution>) -> bool {
    let hands = blob::hands_of(player, set.oop.len(), set.ip.len());
    match solution {
        None => false,
        Some(b) => {
            &&& b.actions() == n
            &&& b.hands() == hands
            &&& b.frequencies().len() == n * hands
            &&& board_len != 5 || set.river_ev ==> b.has_ev() && b.chips().len() == n * hands
        },
    }
}

/// Whether cards are folded after a node and all below it, depth first, given whether they were
/// folded before it.
pub open spec fn folding_after(set: Setting, folding: bool, node: GameNode) -> bool
    decreases node, 0int,
{
    match node {
        GameNode::Terminal { bets } => folding,
        GameNode::Chance { bets, board, possible, actions, children } => {
            let turn = export::turn_of(board@);
            let folds = folding && export::agreed(set.iso, turn, possible, actions@);
            if turn is None || set.store_river {
                folding_after_all(set, folds, children@, children@.len() as int)
            } else {
                folds
            }
        },
        GameNode::Player { bets, board_len, player, weights, actions, solution, children } => if pruned(
            set,
            player,
            weights@,
            board_len,
        ) {
            folding
        } else {
            folding_after_all(set, folding, children@, children@.len() as int)
        },
    }
}

/// Whether cards are folded after the first `k` of some nodes and all below them.
pub open spec fn folding_after_all(set: Setting, folding: bool, nodes: Seq<GameNode>, k: int) -> bool
    decreases nodes, k,
{
    if k <= 0 || k > nodes.len() {
        folding
    } else {
        folding_after(set, folding_after_all(set, folding, nodes, k - 1), nodes[k - 1])
    }
}

/// A game is prepared by the decisions of an export, depth first: at a node where a card is dealt
/// there is a child for each card that `Exporter::branches` names, with `folding` carried from node
/// to node; at a player node that `Exporter::is_pruned` leaves a body there is a child for each
/// action and a solution, with EVs where `Exporter::has_ev` asks for them.
pub open spec fn planned(set: Setting, folding: bool, node: GameNode) -> bool
    decreases node, 0int,
{
    match node {
        GameNode::Terminal { bets } => true,
        GameNode::Chance { bets, board, possible, actions, children } => {
            let turn = export::turn_of(board@);
            let folds = folding && export::agreed(set.iso, turn, possible, actions@);
            &&& board@.len() >= 3
            &&& turn is Some ==> turn->0 < 52
            &&& turn is None || set.store_river ==> {
                &&& children@.len() == export::stored_cards(set.iso, turn, possible, folds).len()
                &&& all_planned(set, folds, children@, children@.len() as int)
            }
        },
        GameNode::Player { bets, board_len, player, weights, actions, solution, children } => {
            &&& player <= 1
            &&& !pruned(set, player, weights@, board_len) ==> {
                &&& solved(set, player, board_len, actions@.len(), solution)
                &&& children@.len() == actions@.len()
                &&& all_planned(set, folding, children@, children@.len() as int)
            }
        },
    }
}

/// The first `k` of some games are prepared, one after the other.
pub open spec fn all_planned(set: Setting, folding: bool, nodes: Seq<GameNode>, k: int) -> bool
    decreases nodes, k,
{
    if k <= 0 || k > nodes.len() {
        true
    } else {
        &&& all_planned(set, folding, nodes, k - 1)
        &&& planned(set, folding_after_all(set, folding, nodes, k - 1), nodes[k - 1])
    }
}

/// A game that was prepared by the decisions of an export is exported, unless it is too large; and
/// cards are folded afterwards as they were when it was prepared.
pub proof fn law_planned_games_are_exported(set: Setting, p: Progress, key: BlobKey, node: GameNode)
    requires
        key.proper(),
        planned(set, p.trusted, node),
    ensures
        match export::exported(set, p, key, node) {
            Err(e) => e == Error::TooLarge,
            Ok((q, index)) => q.trusted == folding_after(set, p.trusted, node),
        },
    decreases node, 0int,
{
    if export::reserved(set, p, key) is Ok {
        let p1 = export::reserved(set, p, key)->Ok_0.0;
        match node {
            GameNode::Terminal { bets } => {},
            GameNode::Chance { bets, board, possible, actions, children } => {
                let turn = export::turn_of(board@);
                let folds = p1.trusted && export::agreed(set.iso, turn, possible, actions@);
                let list = export::stored_cards(set.iso, turn, possible, folds);
                let p2 = Progress { trusted: folds, ..p1 };
                let keys = Seq::new(list.len(), |i: int| export::card_key(turn, list[i]));
                export::lemma_stored_cards(set.iso, turn, possible, folds);
                assert forall|i: int| 0 <= i < keys.len() implies (#[trigger] keys[i]).proper() by {
                    assert(list[i] < 52);
                    export::lemma_card_key(turn, list[i]);
                }
                if turn is None || set.store_river {
                    lemma_planned_lists(set, p2, keys, children@, list.len() as int);
                }
            },
            GameNode::Player { bets, board_len, player, weights, actions, solution, children } => {
                let river = board_len == 5;
                if !pruned(set, player, weights@, board_len) {
                    let n = actions@.len();
                    let p2 = Progress {
                        river_player_nodes: p1.river_player_nodes + (if river {
                            1int
                        } else {
                            0int
                        }),
                        ..p1
                    };
                    let keys = Seq::new(n, |i: int| key);
                    lemma_planned_lists(set, p2, keys, children@, n as int);
                }
            },
        }
    }
}

proof fn lemma_planned_lists(set: Setting, p: Progress, keys: Seq<BlobKey>, nodes: Seq<GameNode>, k: int)
    requires
        0 <= k <= nodes.len(),
        k <= keys.len(),
        forall|i: int| 0 <= i < keys.len() ==> (#[trigger] keys[i]).proper(),
        all_planned(set, p.trusted, nodes, k),
    ensures
        match export::exported_list(set, p, keys, nodes, k) {
            Err(e) => e == Error::TooLarge,
            Ok((q, indices)) => q.trusted == folding_after_all(set, p.trusted, nodes, k),
        },
    decreases nodes, k,
{
    if k > 0 {
        lemma_planned_lists(set, p, keys, nodes, k - 1);
        if export::exported_list(set, p, keys, nodes, k - 1) is Ok {
            let q = export::exported_list(set, p, keys, nodes, k - 1)->Ok_0.0;
            assert(keys[k - 1].proper());
            law_planned_games_are_exported(set, q, keys[k - 1], nodes[k - 1]);
        }
    }
}

} // verus!
