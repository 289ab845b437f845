//! What holds of stored subtrees: every child slot leads to the node of its own child.

use vstd::prelude::*;

use crate::action_laws;
use crate::blob::NodeModel;
use crate::cards;
use crate::deal_laws;
use crate::export;
use crate::export::{BlobKey, GameNode, Progress, Setting, NUM_KEYS};
use crate::export_laws;

verus! {

/// The node of a number in the blob of a key.
pub open spec fn node_at(q: Progress, key: BlobKey, index: int) -> NodeModel {
    q.blobs[key.place()]->0.nodes[index]
}

/// Whether the blob of a key has a node of a number that it did not have before.
pub open spec fn is_new(p: Progress, q: Progress, key: BlobKey, index: int) -> bool {
    &&& q.blobs[key.place()] is Some
    &&& export_laws::len_at(p.blobs, key.place()) <= index < q.blobs[key.place()]->0.nodes.len()
}

/// Whether a stored node and those that its player's actions lead to, on its street, are what a node
/// of a game and those below it are: the slot of each action leads to the node after that action.
/// All of them are new. Below a node without a body nothing is stored.
pub open spec fn shows(p: Progress, q: Progress, key: BlobKey, index: u32, node: GameNode) -> bool
    decreases node, 0int,
{
    let n = node_at(q, key, index as int);
    &&& is_new(p, q, key, index as int)
    &&& action_laws::is_stored_as(node, n)
    &&& match node {
        GameNode::Player { actions, children, .. } => {
            ||| n.flags == 1
            ||| {
                &&& n.children.len() == actions@.len()
                &&& children@.len() == actions@.len()
                &&& show_all(
                    p,
                    q,
                    Seq::new(actions@.len(), |i: int| key),
                    n.children,
                    children@,
                    children@.len() as int,
                )
            }
        },
        _ => true,
    }
}

/// Whether the first `k` of some stored nodes, each in the blob of its key, show the first `k` of
/// some nodes of a game.
pub open spec fn show_all(
    p: Progress,
    q: Progress,
    keys: Seq<BlobKey>,
    slots: Seq<u32>,
    nodes: Seq<GameNode>,
    k: int,
) -> bool
    decreases nodes, k,
{
    if k <= 0 || k > nodes.len() {
        true
    } else {
        &&& show_all(p, q, keys, slots, nodes, k - 1)
        &&& shows(p, q, keys[k - 1], slots[k - 1], nodes[k - 1])
    }
}

/// Whether no blob has fewer nodes than before.
spec fn no_fewer(p: Progress, q: Progress) -> bool {
    forall|i: int|
        0 <= i < NUM_KEYS ==> #[trigger] export_laws::len_at(p.blobs, i) <= export_laws::len_at(
            q.blobs,
            i,
        )
}

/// Whether the nodes that are new in `q` are the same in `r`.
spec fn keeps_new(p: Progress, q: Progress, r: Progress) -> bool {
    forall|i: int, j: int|
        #![trigger q.blobs[i]->0.nodes[j]]
        0 <= i < NUM_KEYS && q.blobs[i] is Some && export_laws::len_at(p.blobs, i) <= j
            < q.blobs[i]->0.nodes.len() ==> r.blobs[i] is Some && j < r.blobs[i]->0.nodes.len()
            && r.blobs[i]->0.nodes[j] == q.blobs[i]->0.nodes[j]
}

proof fn lemma_extends(p: Progress, q: Progress, r: Progress)
    requires
        p.blobs.len() == NUM_KEYS,
        q.blobs.len() == NUM_KEYS,
        export_laws::extends(q, r),
    ensures
        keeps_new(p, q, r),
        no_fewer(q, r),
{
    assert forall|i: int, j: int|
        #![trigger q.blobs[i]->0.nodes[j]]
        0 <= i < NUM_KEYS && q.blobs[i] is Some && export_laws::len_at(p.blobs, i) <= j
            < q.blobs[i]->0.nodes.len() implies r.blobs[i] is Some && j < r.blobs[i]->0.nodes.len()
        && r.blobs[i]->0.nodes[j] == q.blobs[i]->0.nodes[j] by {
        let a = q.blobs[i]->0.nodes;
        let b = r.blobs[i]->0.nodes;
        assert(a.is_prefix_of(b));
        assert(a == b.subrange(0, a.len() as int));
        assert(a[j] == b.subrange(0, a.len() as int)[j]);
    }
    assert forall|i: int| 0 <= i < NUM_KEYS implies #[trigger] export_laws::len_at(q.blobs, i)
        <= export_laws::len_at(r.blobs, i) by {
        if q.blobs[i] is Some {
            assert(q.blobs[i]->0.nodes.is_prefix_of(r.blobs[i]->0.nodes));
        }
    }
}

/// What is shown stays shown while the new nodes stay as they are.
proof fn lemma_stays_shown(p0: Progress, p: Progress, q: Progress, r: Progress, key: BlobKey, index: u32, node: GameNode)
    requires
        no_fewer(p0, p),
        keeps_new(p, q, r),
        key.proper(),
        shows(p, q, key, index, node),
    ensures
        shows(p0, r, key, index, node),
    decreases node, 0int,
{
    export_laws::lemma_key_at(key);
    let at = key.place();
    assert(q.blobs[at]->0.nodes[index as int] == node_at(q, key, index as int));
    assert(export_laws::len_at(p0.blobs, at) <= export_laws::len_at(p.blobs, at));
    let n = node_at(q, key, index as int);
    match node {
        GameNode::Player { actions, children, .. } => {
            if n.flags != 1 {
                let keys = Seq::new(actions@.len(), |i: int| key);
                lemma_all_stay_shown(p0, p, q, r, keys, n.children, children@, children@.len() as int);
            }
        },
        _ => {},
    }
}

proof fn lemma_all_stay_shown(
    p0: Progress,
    p: Progress,
    q: Progress,
    r: Progress,
    keys: Seq<BlobKey>,
    slots: Seq<u32>,
    nodes: Seq<GameNode>,
    k: int,
)
    requires
        no_fewer(p0, p),
        keeps_new(p, q, r),
        forall|i: int| 0 <= i < keys.len() ==> (#[trigger] keys[i]).proper(),
        k <= keys.len(),
        k <= nodes.len(),
        show_all(p, q, keys, slots, nodes, k),
    ensures
        show_all(p0, r, keys, slots, nodes, k),
    decreases nodes, k,
{
    if 0 < k {
        lemma_all_stay_shown(p0, p, q, r, keys, slots, nodes, k - 1);
        assert(keys[k - 1].proper());
        lemma_stays_shown(p0, p, q, r, keys[k - 1], slots[k - 1], nodes[k - 1]);
    }
}

/// More slots behind do not matter.
proof fn lemma_same_slots(
    p: Progress,
    q: Progress,
    keys: Seq<BlobKey>,
    slots: Seq<u32>,
    more: Seq<u32>,
    nodes: Seq<GameNode>,
    k: int,
)
    requires
        k <= slots.len(),
        k <= more.len(),
        forall|i: int| 0 <= i < k ==> slots[i] == #[trigger] more[i],
        show_all(p, q, keys, slots, nodes, k),
    ensures
        show_all(p, q, keys, more, nodes, k),
    decreases k,
{
    if 0 < k <= nodes.len() {
        lemma_same_slots(p, q, keys, slots, more, nodes, k - 1);
        assert(slots[k - 1] == more[k - 1]);
    }
}

/// One of those that are shown.
proof fn lemma_one_of(
    p: Progress,
    q: Progress,
    keys: Seq<BlobKey>,
    slots: Seq<u32>,
    nodes: Seq<GameNode>,
    k: int,
    i: int,
)
    requires
        0 <= i < k <= nodes.len(),
        show_all(p, q, keys, slots, nodes, k),
    ensures
        shows(p, q, keys[i], slots[i], nodes[i]),
    decreases k,
{
    if i < k - 1 {
        lemma_one_of(p, q, keys, slots, nodes, k - 1, i);
    }
}

/// Filling in a node that was there before leaves the new ones as they are.
proof fn lemma_filled(p: Progress, q: Progress, key: BlobKey, index: u32, node: NodeModel)
    requires
        q.blobs.len() == NUM_KEYS,
        key.proper(),
        q.blobs[key.place()] is Some,
        index < export_laws::len_at(p.blobs, key.place()),
    ensures
        keeps_new(p, q, export::filled(q, key, index, node)),
{
    export_laws::lemma_key_at(key);
}

/// An export shows what is exported: all nodes of the subtree that are on its street are stored as
/// what they are, and the slot of every action leads to the node after that action.
#[verifier::rlimit(40)]
pub proof fn law_actions_lead_to_their_nodes(set: Setting, p: Progress, key: BlobKey, node: GameNode)
    requires
        export_laws::sound(set, p),
        key.proper(),
        export::exported(set, p, key, node) is Ok,
    ensures
        ({
            let (q, index) = export::exported(set, p, key, node)->Ok_0;
            shows(p, q, key, index, node)
        }),
    decreases node, 0int,
{
    export_laws::lemma_key_at(key);
    export_laws::lemma_reserved(set, p, key);
    export_laws::law_exports_are_sound(set, p, key, node);
    action_laws::law_nodes_are_stored_as_what_they_are(set, p, key, node);
    let at = key.place();
    let (p1, index) = export::reserved(set, p, key)->Ok_0;
    let q = export::exported(set, p, key, node)->Ok_0.0;
    match node {
        GameNode::Player { bets, board_len, player, weights, actions, solution, children } => {
            export_laws::law_player_nodes(set, p, key, node);
            let river = board_len == 5;
            let epsilon = if river {
                set.river_prune_epsilon
            } else {
                set.prune_epsilon
            };
            let n = actions@.len();
            if !export::reach_of(set.root[player as int], weights@).below(epsilon) {
                let p2 = Progress {
                    river_player_nodes: p1.river_player_nodes + (if river {
                        1int
                    } else {
                        0int
                    }),
                    ..p1
                };
                let keys = Seq::new(n, |i: int| key);
                export_laws::lemma_same_blobs(set, p1, p2);
                export_laws::lemma_lists_are_sound(set, p2, keys, children@, n as int);
                lemma_lists_show(set, p2, keys, children@, n as int);
                let (p3, indices) = export::exported_list(set, p2, keys, children@, n as int)->Ok_0;
                assert(p2.blobs[at] is Some);
                assert(p3.blobs[at] is Some);
                let model = node_at(q, key, index as int);
                assert(q == export::filled(p3, key, index, model));
                assert(model.children == indices);
                lemma_filled(p2, p3, key, index, model);
                lemma_extends(p, p, p1);
                assert(no_fewer(p, p2));
                lemma_all_stay_shown(p, p2, p3, q, keys, indices, children@, n as int);
            }
        },
        _ => {},
    }
}

proof fn lemma_lists_show(set: Setting, p: Progress, keys: Seq<BlobKey>, nodes: Seq<GameNode>, k: int)
    requires
        export_laws::sound(set, p),
        k <= nodes.len(),
        k <= keys.len(),
        forall|i: int| 0 <= i < keys.len() ==> (#[trigger] keys[i]).proper(),
        export::exported_list(set, p, keys, nodes, k) is Ok,
    ensures
        ({
            let (q, indices) = export::exported_list(set, p, keys, nodes, k)->Ok_0;
            show_all(p, q, keys, indices, nodes, k)
        }),
    decreases nodes, k,
{
    if k > 0 {
        lemma_lists_show(set, p, keys, nodes, k - 1);
        export_laws::lemma_lists_are_sound(set, p, keys, nodes, k - 1);
        let (q, before) = export::exported_list(set, p, keys, nodes, k - 1)->Ok_0;
        let key = keys[k - 1];
        assert(key.proper());
        law_actions_lead_to_their_nodes(set, q, key, nodes[k - 1]);
        export_laws::law_exports_are_sound(set, q, key, nodes[k - 1]);
        let (r, index) = export::exported(set, q, key, nodes[k - 1])->Ok_0;
        let indices = before.push(index);
        lemma_extends(p, q, r);
        lemma_extends(p, p, q);
        assert(no_fewer(p, p));
        lemma_all_stay_shown(p, p, q, r, keys, before, nodes, k - 1);
        lemma_same_slots(p, r, keys, before, indices, nodes, k - 1);
        lemma_extends(r, r, r);
        lemma_stays_shown(p, q, r, r, key, index, nodes[k - 1]);
    }
}

/// Where the subtrees after cards are stored, the slot of every card that has one of its own leads
/// to the node after that card, in the blob of that card: of the turn card, or of the turn and the
/// river card.
#[verifier::rlimit(40)]
pub proof fn law_cards_lead_to_their_nodes(set: Setting, p: Progress, key: BlobKey, node: GameNode, j: int)
    requires
        export_laws::sound(set, p),
        key.proper(),
        node is Chance,
        node->board@.len() == 3 || set.store_river,
        export::exported(set, p, key, node) is Ok,
        0 <= j < node->Chance_children@.len(),
    ensures
        ({
            let (q, index) = export::exported(set, p, key, node)->Ok_0;
            let board = node->board@;
            let turn = if board.len() == 3 {
                None
            } else {
                Some(board[3])
            };
            let list = export::stored_cards(
                set.iso,
                turn,
                node->possible,
                deal_laws::folds_at(set, p, node),
            );
            let card = cards::swapped(list[j] as int) as u8;
            let slot = node_at(q, key, index as int).children[card as int];
            let there = match turn {
                None => BlobKey::Turn(card),
                Some(t) => BlobKey::River(cards::swapped(t as int) as u8, card),
            };
            &&& list.len() == node->Chance_children@.len()
            &&& shows(p, q, there, slot, node->Chance_children@[j])
        }),
{
    export_laws::lemma_key_at(key);
    export_laws::lemma_reserved(set, p, key);
    let at = key.place();
    let (p1, index) = export::reserved(set, p, key)->Ok_0;
    let q = export::exported(set, p, key, node)->Ok_0.0;
    let possible = node->possible;
    let children = node->Chance_children@;
    let turn = export::turn_of(node->board@);
    let folds = deal_laws::folds_at(set, p, node);
    let list = export::stored_cards(set.iso, turn, possible, folds);
    let p2 = Progress { trusted: folds, ..p1 };
    let keys = Seq::new(list.len(), |i: int| export::card_key(turn, list[i]));
    export::lemma_stored_cards(set.iso, turn, possible, folds);
    assert forall|i: int| 0 <= i < keys.len() implies (#[trigger] keys[i]).proper() by {
        assert(list[i] < 52);
        export::lemma_card_key(turn, list[i]);
    }
    export_laws::lemma_same_blobs(set, p1, p2);
    export_laws::lemma_lists_are_sound(set, p2, keys, children, list.len() as int);
    lemma_lists_show(set, p2, keys, children, list.len() as int);
    let (p3, indices) = export::exported_list(set, p2, keys, children, list.len() as int)->Ok_0;
    let p4 = if turn is None {
        export::noted(p3, set.iso, possible, folds)
    } else {
        p3
    };
    assert(p1.blobs[at] is Some);
    assert(p4.blobs[at] is Some);
    let model = node_at(q, key, index as int);
    assert(q == export::filled(p4, key, index, model));
    lemma_one_of(p2, p3, keys, indices, children, list.len() as int, j);
    lemma_filled(p2, p4, key, index, model);
    assert(keeps_new(p2, p3, q));
    lemma_extends(p, p, p1);
    assert(no_fewer(p, p2));
    lemma_stays_shown(p, p2, p3, q, keys[j], indices[j], children[j]);
    cards::law_swap_is_its_own_inverse(list[j] as int);
    let card = cards::swapped(list[j] as int);
    assert(cards::swapped(card) == list[j]);
    deal_laws::lemma_stored_place(set.iso, turn, possible, folds, j);
    assert(model.children == export::card_slots(set.iso, turn, possible, true, list, indices, folds));
    assert(model.children[card] == indices[j]);
}

} // verus!
