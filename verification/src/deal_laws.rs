//! What holds of the cards that are dealt in an export.

use vstd::prelude::*;

use crate::blob::{NodeModel, CHILD_IMPOSSIBLE, CHILD_NOT_STORED, KIND_CHANCE};
use crate::cards;
use crate::export;
use crate::export::{Action, BlobKey, GameNode, Progress, Setting, NUM_KEYS};
use crate::export_laws;
use crate::tree;
use crate::tree::IsomorphismModel;

verus! {

/// Where the cards that stand for others may come too, a card and the one that stands for it lead
/// to the same node.
pub proof fn law_cards_lead_where_their_stand_ins_do(
    iso: IsomorphismModel,
    turn: Option<u8>,
    set: u64,
    stored: bool,
    list: Seq<u8>,
    indices: Seq<u32>,
    card: u8,
)
    requires
        iso.well_formed(),
        card < 52,
        export::holds(set, card),
        export::holds(set, export::stand_in(iso, turn, card)),
    ensures
        ({
            let slots = export::card_slots(iso, turn, set, stored, list, indices, true);
            slots[cards::swapped(card as int)] == slots[cards::swapped(
                export::stand_in(iso, turn, card) as int,
            )]
        }),
{
    lemma_stand_in(iso, turn, card);
    cards::law_swap_is_its_own_inverse(card as int);
    cards::law_swap_is_its_own_inverse(export::stand_in(iso, turn, card) as int);
}

proof fn lemma_stand_in(iso: IsomorphismModel, turn: Option<u8>, card: u8)
    requires
        iso.well_formed(),
        card < 52,
    ensures
        export::stand_in(iso, turn, card) < 52,
        export::stand_in(iso, turn, export::stand_in(iso, turn, card)) == export::stand_in(
            iso,
            turn,
            card,
        ),
{
    match turn {
        None => {
            tree::law_turn_representative(iso, card as int);
        },
        Some(t) => {
            tree::law_river_representative(iso, t, card as int);
        },
    }
}

/// Every turn card that another one stands for names a card that has a blob of its own.
pub open spec fn listed(p: Progress) -> bool {
    forall|k: int|
        0 <= k < 52 && (#[trigger] p.turn_isomorphism[k]) is Some ==> p.turn_isomorphism[k]->0 < 52
            && p.turn_cards[p.turn_isomorphism[k]->0 as int]
}

/// Where a card may come, so may the one that stands for it.
pub open spec fn closed(iso: IsomorphismModel, turn: Option<u8>, set: u64) -> bool {
    forall|card: u8|
        card < 52 && #[trigger] export::holds(set, card) ==> export::holds(
            set,
            export::stand_in(iso, turn, card),
        )
}

/// Noting the turn cards of a node keeps every stand-in among the cards that have blobs.
pub proof fn law_stand_ins_are_listed(p: Progress, iso: IsomorphismModel, set: u64, folds: bool)
    requires
        iso.well_formed(),
        closed(iso, None, set),
        listed(p),
    ensures
        listed(export::noted(p, iso, set, folds)),
{
    let q = export::noted(p, iso, set, folds);
    assert forall|k: int| 0 <= k < 52 && (#[trigger] q.turn_isomorphism[k]) is Some implies q.turn_isomorphism[k]->0
        < 52 && q.turn_cards[q.turn_isomorphism[k]->0 as int] by {
        cards::law_swap_is_its_own_inverse(k);
        let card = cards::swapped(k) as u8;
        let rep = export::stand_in(iso, None, card);
        lemma_stand_in(iso, None, card);
        cards::law_swap_is_its_own_inverse(rep as int);
        if export::holds(set, card) && folds && rep != card {
            assert(export::holds(set, rep));
            assert(cards::swapped(cards::swapped(rep as int)) == rep);
        } else {
            assert(p.turn_isomorphism[k] is Some);
            assert(p.turn_cards[p.turn_isomorphism[k]->0 as int]);
        }
    }
}

/// Every listed turn card has a blob of its own.
pub open spec fn turn_cards_have_blobs(p: Progress) -> bool {
    forall|k: int| 0 <= k < 52 && #[trigger] p.turn_cards[k] ==> p.blobs[1 + k] is Some
}

/// The listed turn cards have blobs of their own.
#[verifier::rlimit(40)]
pub proof fn law_turn_cards_have_blobs(set: Setting, p: Progress, key: BlobKey, node: GameNode)
    requires
        export_laws::sound(set, p),
        key.proper(),
        turn_cards_have_blobs(p),
        export::exported(set, p, key, node) is Ok,
    ensures
        turn_cards_have_blobs(export::exported(set, p, key, node)->Ok_0.0),
    decreases node, 0int,
{
    export_laws::lemma_key_at(key);
    export_laws::lemma_reserved(set, p, key);
    let at = key.place();
    let (p1, index) = export::reserved(set, p, key)->Ok_0;
    let (q, same) = export::exported(set, p, key, node)->Ok_0;
    let model = q.blobs[at]->0.nodes[index as int];
    assert(turn_cards_have_blobs(p1)) by {
        assert forall|k: int| 0 <= k < 52 && #[trigger] p1.turn_cards[k] implies p1.blobs[1 + k] is Some by {
            assert(p.turn_cards[k]);
            assert(p.blobs[1 + k] is Some);
        }
    }
    match node {
        GameNode::Terminal { bets } => {
            lemma_filled_has_blobs(p1, key, index, model);
            assert(q == export::filled(p1, key, index, model));
        },
        GameNode::Chance { bets, board, possible, actions, children } => {
            let turn = export::turn_of(board@);
            let folds = p1.trusted && export::agreed(set.iso, turn, possible, actions@);
            let list = export::stored_cards(set.iso, turn, possible, folds);
            let stored = turn is None || set.store_river;
            let p2 = Progress { trusted: folds, ..p1 };
            let keys = Seq::new(list.len(), |i: int| export::card_key(turn, list[i]));
            let count = if stored {
                list.len() as int
            } else {
                0
            };
            export::lemma_stored_cards(set.iso, turn, possible, folds);
            assert forall|i: int| 0 <= i < keys.len() implies (#[trigger] keys[i]).proper() by {
                assert(list[i] < 52);
                export::lemma_card_key(turn, list[i]);
            }
            assert(export_laws::sound(set, p2));
            export_laws::lemma_lists_are_sound(set, p2, keys, children@, count);
            lemma_lists_have_blobs(set, p2, keys, children@, count);
            let (p3, indices) = export::exported_list(set, p2, keys, children@, count)->Ok_0;
            if turn is None {
                lemma_noted_have_blobs(set, p3, possible, folds, keys, indices);
            }
            let p4 = if turn is None {
                export::noted(p3, set.iso, possible, folds)
            } else {
                p3
            };
            assert(p1.blobs[at] is Some);
            lemma_filled_has_blobs(p4, key, index, model);
            assert(q == export::filled(p4, key, index, model));
        },
        GameNode::Player { bets, board_len, player, weights, actions, solution, children } => {
            let river = board_len == 5;
            let epsilon = if river {
                set.river_prune_epsilon
            } else {
                set.prune_epsilon
            };
            if export::reach_of(set.root[player as int], weights@).below(epsilon) {
                let p2 = Progress { pruned_nodes: p1.pruned_nodes + 1, ..p1 };
                lemma_filled_has_blobs(p2, key, index, model);
                assert(q == export::filled(p2, key, index, model));
            } else {
                let p2 = Progress {
                    river_player_nodes: p1.river_player_nodes + (if river {
                        1int
                    } else {
                        0int
                    }),
                    ..p1
                };
                let keys = Seq::new(actions@.len(), |i: int| key);
                assert(export_laws::sound(set, p2));
                export_laws::lemma_lists_are_sound(set, p2, keys, children@, actions@.len() as int);
                lemma_lists_have_blobs(set, p2, keys, children@, actions@.len() as int);
                let p3 = export::exported_list(set, p2, keys, children@, actions@.len() as int)->Ok_0.0;
                assert(p1.blobs[at] is Some);
                lemma_filled_has_blobs(p3, key, index, model);
                assert(q == export::filled(p3, key, index, model));
            }
        },
    }
}

proof fn lemma_filled_has_blobs(p: Progress, key: BlobKey, index: u32, n: NodeModel)
    requires
        turn_cards_have_blobs(p),
        p.blobs.len() == NUM_KEYS,
        0 <= key.place() < NUM_KEYS,
        p.blobs[key.place()] is Some,
        index < p.blobs[key.place()]->0.nodes.len(),
    ensures
        turn_cards_have_blobs(export::filled(p, key, index, n)),
        export::filled(p, key, index, n).blobs[key.place()]->0.nodes[index as int] == n,
{
    let q = export::filled(p, key, index, n);
    assert forall|k: int| 0 <= k < 52 && #[trigger] q.turn_cards[k] implies q.blobs[1 + k] is Some by {
        assert(p.turn_cards[k]);
    }
}

proof fn lemma_lists_have_blobs(set: Setting, p: Progress, keys: Seq<BlobKey>, nodes: Seq<GameNode>, k: int)
    requires
        export_laws::sound(set, p),
        turn_cards_have_blobs(p),
        k <= nodes.len(),
        k <= keys.len(),
        forall|i: int| 0 <= i < keys.len() ==> (#[trigger] keys[i]).proper(),
        export::exported_list(set, p, keys, nodes, k) is Ok,
    ensures
        turn_cards_have_blobs(export::exported_list(set, p, keys, nodes, k)->Ok_0.0),
    decreases nodes, k,
{
    if k > 0 {
        export_laws::lemma_lists_are_sound(set, p, keys, nodes, k - 1);
        let q = export::exported_list(set, p, keys, nodes, k - 1)->Ok_0.0;
        assert(keys[k - 1].proper());
        lemma_lists_have_blobs(set, p, keys, nodes, k - 1);
        law_turn_cards_have_blobs(set, q, keys[k - 1], nodes[k - 1]);
    }
}

/// Once the engine has solved other cards, that stays so.
proof fn lemma_trust_is_lost_for_good(set: Setting, p: Progress, key: BlobKey, node: GameNode)
    requires
        export::exported(set, p, key, node) is Ok,
        export::exported(set, p, key, node)->Ok_0.0.trusted,
    ensures
        p.trusted,
    decreases node, 0int,
{
    let (p1, index) = export::reserved(set, p, key)->Ok_0;
    match node {
        GameNode::Terminal { bets } => {},
        GameNode::Chance { bets, board, possible, actions, children } => {
            let turn = export::turn_of(board@);
            let folds = p1.trusted && export::agreed(set.iso, turn, possible, actions@);
            let list = export::stored_cards(set.iso, turn, possible, folds);
            let p2 = Progress { trusted: folds, ..p1 };
            let keys = Seq::new(list.len(), |i: int| export::card_key(turn, list[i]));
            let count = if turn is None || set.store_river {
                list.len() as int
            } else {
                0
            };
            lemma_list_trust(set, p2, keys, children@, count);
        },
        GameNode::Player { bets, board_len, player, weights, actions, solution, children } => {
            let river = board_len == 5;
            let epsilon = if river {
                set.river_prune_epsilon
            } else {
                set.prune_epsilon
            };
            if !export::reach_of(set.root[player as int], weights@).below(epsilon) {
                let p2 = Progress {
                    river_player_nodes: p1.river_player_nodes + (if river {
                        1int
                    } else {
                        0int
                    }),
                    ..p1
                };
                let keys = Seq::new(actions@.len(), |i: int| key);
                lemma_list_trust(set, p2, keys, children@, actions@.len() as int);
            }
        },
    }
}

proof fn lemma_list_trust(set: Setting, p: Progress, keys: Seq<BlobKey>, nodes: Seq<GameNode>, k: int)
    requires
        export::exported_list(set, p, keys, nodes, k) is Ok,
        export::exported_list(set, p, keys, nodes, k)->Ok_0.0.trusted,
    ensures
        p.trusted,
    decreases nodes, k,
{
    if 0 < k <= nodes.len() {
        let q = export::exported_list(set, p, keys, nodes, k - 1)->Ok_0.0;
        lemma_trust_is_lost_for_good(set, q, keys[k - 1], nodes[k - 1]);
        lemma_list_trust(set, p, keys, nodes, k - 1);
    }
}

/// The turn cards that are noted at a node have blobs, since their subtrees have just been exported.
proof fn lemma_noted_have_blobs(
    set: Setting,
    p: Progress,
    possible: u64,
    folds: bool,
    keys: Seq<BlobKey>,
    indices: Seq<u32>,
)
    requires
        turn_cards_have_blobs(p),
        p.blobs.len() == NUM_KEYS,
        ({
            let list = export::stored_cards(set.iso, None, possible, folds);
            &&& keys == Seq::new(list.len(), |i: int| export::card_key(None, list[i]))
            &&& indices.len() == list.len()
            &&& forall|i: int|
                0 <= i < list.len() ==> 0 <= #[trigger] indices[i] < export_laws::len_at(p.blobs, keys[i].place())
        }),
    ensures
        turn_cards_have_blobs(export::noted(p, set.iso, possible, folds)),
{
    let list = export::stored_cards(set.iso, None, possible, folds);
    let q = export::noted(p, set.iso, possible, folds);
    assert forall|k: int| 0 <= k < 52 && #[trigger] q.turn_cards[k] implies q.blobs[1 + k] is Some by {
        if !p.turn_cards[k] {
            let card = cards::swapped(k) as u8;
            cards::law_swap_is_its_own_inverse(k);
            if folds {
                lemma_own_card_is_listed(set.iso, None, possible, card, 52);
            } else {
                lemma_card_is_listed(possible, card, 52);
            }
            let i = choose|i: int| 0 <= i < list.len() && list[i] == card;
            assert(keys[i] == export::card_key(None, card));
            assert(keys[i].place() == 1 + k);
            assert(0 <= indices[i] < export_laws::len_at(p.blobs, keys[i].place()));
        }
    }
}

proof fn lemma_own_card_is_listed(iso: IsomorphismModel, turn: Option<u8>, set: u64, card: u8, n: int)
    requires
        card < n <= 52,
        export::holds(set, card),
        export::stand_in(iso, turn, card) == card,
    ensures
        exists|i: int|
            0 <= i < export::own_cards(iso, turn, set, n).len() && export::own_cards(iso, turn, set, n)[i]
                == card,
    decreases n,
{
    let all = export::own_cards(iso, turn, set, n);
    if card == n - 1 {
        assert(all[all.len() - 1] == card);
    } else {
        lemma_own_card_is_listed(iso, turn, set, card, n - 1);
        let before = export::own_cards(iso, turn, set, n - 1);
        let i = choose|i: int| 0 <= i < before.len() && before[i] == card;
        assert(all[i] == card);
    }
}

proof fn lemma_card_is_listed(set: u64, card: u8, n: int)
    requires
        card < n <= 52,
        export::holds(set, card),
    ensures
        exists|i: int|
            0 <= i < export::cards_in(set, n).len() && export::cards_in(set, n)[i] == card,
    decreases n,
{
    let all = export::cards_in(set, n);
    if card == n - 1 {
        assert(all[all.len() - 1] == card);
    } else {
        lemma_card_is_listed(set, card, n - 1);
        let before = export::cards_in(set, n - 1);
        let i = choose|i: int| 0 <= i < before.len() && before[i] == card;
        assert(all[i] == card);
    }
}

/// At every node where the turn is dealt, the card that stands for one that may come may come too.
pub open spec fn all_closed(iso: IsomorphismModel, node: GameNode) -> bool
    decreases node,
{
    match node {
        GameNode::Terminal { bets } => true,
        GameNode::Chance { bets, board, possible, actions, children } => {
            &&& export::turn_of(board@) is None ==> closed(iso, None, possible)
            &&& forall|i: int| 0 <= i < children@.len() ==> all_closed(iso, #[trigger] children@[i])
        },
        GameNode::Player { bets, board_len, player, weights, actions, solution, children } => {
            forall|i: int| 0 <= i < children@.len() ==> all_closed(iso, #[trigger] children@[i])
        },
    }
}

/// Every turn card that another one stands for names a listed turn card.
pub proof fn law_isomorphism_names_turn_cards(set: Setting, p: Progress, key: BlobKey, node: GameNode)
    requires
        set.iso.well_formed(),
        all_closed(set.iso, node),
        listed(p),
        export::exported(set, p, key, node) is Ok,
    ensures
        listed(export::exported(set, p, key, node)->Ok_0.0),
    decreases node, 0int,
{
    let (p1, index) = export::reserved(set, p, key)->Ok_0;
    match node {
        GameNode::Terminal { bets } => {},
        GameNode::Chance { bets, board, possible, actions, children } => {
            let turn = export::turn_of(board@);
            let folds = p1.trusted && export::agreed(set.iso, turn, possible, actions@);
            let list = export::stored_cards(set.iso, turn, possible, folds);
            let p2 = Progress { trusted: folds, ..p1 };
            let keys = Seq::new(list.len(), |i: int| export::card_key(turn, list[i]));
            let count = if turn is None || set.store_river {
                list.len() as int
            } else {
                0
            };
            lemma_lists_name_turn_cards(set, p2, keys, children@, count);
            let p3 = export::exported_list(set, p2, keys, children@, count)->Ok_0.0;
            if turn is None {
                law_stand_ins_are_listed(p3, set.iso, possible, folds);
            }
        },
        GameNode::Player { bets, board_len, player, weights, actions, solution, children } => {
            let river = board_len == 5;
            let epsilon = if river {
                set.river_prune_epsilon
            } else {
                set.prune_epsilon
            };
            if !export::reach_of(set.root[player as int], weights@).below(epsilon) {
                let p2 = Progress {
                    river_player_nodes: p1.river_player_nodes + (if river {
                        1int
                    } else {
                        0int
                    }),
                    ..p1
                };
                let keys = Seq::new(actions@.len(), |i: int| key);
                lemma_lists_name_turn_cards(set, p2, keys, children@, actions@.len() as int);
            }
        },
    }
}

proof fn lemma_lists_name_turn_cards(set: Setting, p: Progress, keys: Seq<BlobKey>, nodes: Seq<GameNode>, k: int)
    requires
        set.iso.well_formed(),
        forall|i: int| 0 <= i < nodes.len() ==> all_closed(set.iso, #[trigger] nodes[i]),
        listed(p),
        export::exported_list(set, p, keys, nodes, k) is Ok,
    ensures
        listed(export::exported_list(set, p, keys, nodes, k)->Ok_0.0),
    decreases nodes, k,
{
    if 0 < k <= nodes.len() {
        lemma_lists_name_turn_cards(set, p, keys, nodes, k - 1);
        let q = export::exported_list(set, p, keys, nodes, k - 1)->Ok_0.0;
        law_isomorphism_names_turn_cards(set, q, keys[k - 1], nodes[k - 1]);
    }
}

/// Whether cards are folded at a node where a card is dealt: they have been up to there, and the
/// engine has solved the cards that stand for themselves.
pub open spec fn folds_at(set: Setting, p: Progress, node: GameNode) -> bool {
    p.trusted && export::agreed(
        set.iso,
        export::turn_of(node->board@),
        node->possible,
        node->Chance_actions@,
    )
}

/// What a child slot of a node where a card is dealt says: the card cannot come, or the next street
/// is not stored, or the number of a node that was added to the blob of the card that stands for
/// it; where cards are not folded, that is the card itself.
pub open spec fn slot_leads(
    set: Setting,
    p: Progress,
    q: Progress,
    turn: Option<u8>,
    possible: u64,
    folds: bool,
    slots: Seq<u32>,
    card: u8,
) -> bool {
    let slot = slots[cards::swapped(card as int)];
    let rep = if folds {
        export::stand_in(set.iso, turn, card)
    } else {
        card
    };
    if !export::holds(possible, card) {
        slot == CHILD_IMPOSSIBLE
    } else if !(turn is None || set.store_river) {
        slot == CHILD_NOT_STORED
    } else {
        let place = export::card_key(turn, rep).place();
        &&& export_laws::len_at(p.blobs, place) <= slot < export_laws::len_at(q.blobs, place)
        &&& slot < CHILD_NOT_STORED
    }
}

/// Every child slot of a node where a card is dealt leads where it should. Where the next street is
/// stored, no card that may come is left out; where the engine has solved other cards, here or
/// before, every card leads to a node of its own.
pub proof fn law_card_slots_lead_to_nodes(set: Setting, p: Progress, key: BlobKey, node: GameNode, card: u8)
    requires
        export_laws::sound(set, p),
        set.iso.well_formed(),
        key.proper(),
        node is Chance,
        folds_at(set, p, node) ==> closed(set.iso, export::turn_of(node->board@), node->possible),
        card < 52,
        export::exported(set, p, key, node) is Ok,
    ensures
        ({
            let (q, index) = export::exported(set, p, key, node)->Ok_0;
            let turn = export::turn_of(node->board@);
            let slots = q.blobs[key.place()]->0.nodes[index as int].children;
            &&& slots.len() == 52
            &&& slot_leads(set, p, q, turn, node->possible, folds_at(set, p, node), slots, card)
        }),
{
    export_laws::lemma_key_at(key);
    export_laws::lemma_reserved(set, p, key);
    let at = key.place();
    let (p1, index) = export::reserved(set, p, key)->Ok_0;
    let (q, same) = export::exported(set, p, key, node)->Ok_0;
    let possible = node->possible;
    let actions = node->Chance_actions@;
    let children = node->Chance_children@;
    let turn = export::turn_of(node->board@);
    let folds = p1.trusted && export::agreed(set.iso, turn, possible, actions);
    let list = export::stored_cards(set.iso, turn, possible, folds);
    let stored = turn is None || set.store_river;
    let p2 = Progress { trusted: folds, ..p1 };
    let keys = Seq::new(list.len(), |i: int| export::card_key(turn, list[i]));
    let count = if stored {
        list.len() as int
    } else {
        0
    };
    export::lemma_stored_cards(set.iso, turn, possible, folds);
    assert forall|i: int| 0 <= i < keys.len() implies (#[trigger] keys[i]).proper() by {
        assert(list[i] < 52);
        export::lemma_card_key(turn, list[i]);
    }
    assert(export_laws::sound(set, p2));
    export_laws::lemma_lists_are_sound(set, p2, keys, children, count);
    let (p3, indices) = export::exported_list(set, p2, keys, children, count)->Ok_0;
    let slots = export::card_slots(set.iso, turn, possible, stored, list, indices, folds);
    let p4 = if turn is None {
        export::noted(p3, set.iso, possible, folds)
    } else {
        p3
    };
    let model = NodeModel {
        kind: KIND_CHANCE,
        children: slots,
        invest: export::invested(node->Chance_bets@),
        ..export::empty_node(index)
    };
    assert(p1.blobs[at] is Some);
    assert(p4.blobs[at] is Some);
    assert(q == export::filled(p4, key, index, model));
    cards::law_swap_is_its_own_inverse(card as int);
    let rep = if folds {
        export::stand_in(set.iso, turn, card)
    } else {
        card
    };
    if export::holds(possible, card) && stored {
        if folds {
            lemma_stand_in(set.iso, turn, card);
            lemma_own_card_is_listed(set.iso, turn, possible, rep, 52);
        } else {
            lemma_card_is_listed(possible, card, 52);
        }
        assert(list.contains(rep));
        lemma_index_of(list, rep, 0);
        let i = export::index_of(list, rep, 0)->0;
        assert(keys[i] == export::card_key(turn, rep));
        export_laws::lemma_key_at(keys[i]);
        let place = keys[i].place();
        assert(export_laws::len_at(p2.blobs, place) <= indices[i] < export_laws::len_at(p3.blobs, place));
        assert(export_laws::len_at(p.blobs, place) <= export_laws::len_at(p1.blobs, place));
        assert(p3.blobs[place] is Some);
        assert(export_laws::blob_sound(set, place, p3.blobs[place]->0));
        assert(export_laws::len_at(q.blobs, place) == export_laws::len_at(p4.blobs, place));
    }
}

/// A turn card is listed only where it stands for itself, and another one is named for it only
/// where it does not.
pub open spec fn rightly_listed(iso: IsomorphismModel, p: Progress, k: int) -> bool {
    let card = cards::swapped(k) as u8;
    &&& p.turn_cards[k] ==> export::stand_in(iso, None, card) == card
    &&& p.turn_isomorphism[k] is Some ==> export::stand_in(iso, None, card) != card
}

/// While cards are folded, all turn cards are rightly listed.
pub open spec fn lists_are_apart(iso: IsomorphismModel, p: Progress) -> bool {
    p.trusted ==> forall|k: int| 0 <= k < 52 ==> #[trigger] rightly_listed(iso, p, k)
}

proof fn lemma_noted_apart(iso: IsomorphismModel, p: Progress, set: u64)
    requires
        lists_are_apart(iso, p),
    ensures
        lists_are_apart(iso, export::noted(p, iso, set, true)),
{
    let q = export::noted(p, iso, set, true);
    assert forall|k: int| p.trusted && 0 <= k < 52 implies #[trigger] rightly_listed(iso, q, k) by {
        assert(rightly_listed(iso, p, k));
    }
}

proof fn lemma_same_lists(iso: IsomorphismModel, p: Progress, q: Progress)
    requires
        lists_are_apart(iso, p),
        q.trusted ==> p.trusted,
        q.turn_cards == p.turn_cards,
        q.turn_isomorphism == p.turn_isomorphism,
    ensures
        lists_are_apart(iso, q),
{
    assert forall|k: int| q.trusted && 0 <= k < 52 implies #[trigger] rightly_listed(iso, q, k) by {
        assert(rightly_listed(iso, p, k));
    }
}

/// While cards are folded, no turn card that another one stands for is listed.
pub proof fn law_folded_cards_are_not_listed(set: Setting, p: Progress, key: BlobKey, node: GameNode)
    requires
        lists_are_apart(set.iso, p),
        export::exported(set, p, key, node) is Ok,
    ensures
        ({
            let q = export::exported(set, p, key, node)->Ok_0.0;
            &&& lists_are_apart(set.iso, q)
            &&& q.trusted ==> forall|k: int|
                0 <= k < 52 && #[trigger] q.turn_cards[k] ==> q.turn_isomorphism[k] is None
        }),
{
    let q = export::exported(set, p, key, node)->Ok_0.0;
    lemma_lists_stay_apart(set, p, key, node);
    assert forall|k: int| q.trusted && 0 <= k < 52 && #[trigger] q.turn_cards[k] implies q.turn_isomorphism[k] is None by {
        assert(rightly_listed(set.iso, q, k));
    }
}

proof fn lemma_lists_stay_apart(set: Setting, p: Progress, key: BlobKey, node: GameNode)
    requires
        lists_are_apart(set.iso, p),
        export::exported(set, p, key, node) is Ok,
    ensures
        lists_are_apart(set.iso, export::exported(set, p, key, node)->Ok_0.0),
    decreases node, 0int,
{
    let (p1, index) = export::reserved(set, p, key)->Ok_0;
    let q = export::exported(set, p, key, node)->Ok_0.0;
    match node {
        GameNode::Terminal { bets } => {
            lemma_same_lists(set.iso, p, q);
        },
        GameNode::Chance { bets, board, possible, actions, children } => {
            let turn = export::turn_of(board@);
            let folds = p1.trusted && export::agreed(set.iso, turn, possible, actions@);
            let list = export::stored_cards(set.iso, turn, possible, folds);
            let p2 = Progress { trusted: folds, ..p1 };
            let keys = Seq::new(list.len(), |i: int| export::card_key(turn, list[i]));
            let count = if turn is None || set.store_river {
                list.len() as int
            } else {
                0
            };
            lemma_same_lists(set.iso, p, p2);
            lemma_lists_apart(set, p2, keys, children@, count);
            let p3 = export::exported_list(set, p2, keys, children@, count)->Ok_0.0;
            assert(q.trusted == p3.trusted);
            if q.trusted {
                lemma_list_trust(set, p2, keys, children@, count);
                if turn is None {
                    lemma_noted_apart(set.iso, p3, possible);
                    lemma_same_lists(set.iso, export::noted(p3, set.iso, possible, true), q);
                } else {
                    lemma_same_lists(set.iso, p3, q);
                }
            }
        },
        GameNode::Player { bets, board_len, player, weights, actions, solution, children } => {
            let river = board_len == 5;
            let epsilon = if river {
                set.river_prune_epsilon
            } else {
                set.prune_epsilon
            };
            if export::reach_of(set.root[player as int], weights@).below(epsilon) {
                lemma_same_lists(set.iso, p, q);
            } else {
                let p2 = Progress {
                    river_player_nodes: p1.river_player_nodes + (if river {
                        1int
                    } else {
                        0int
                    }),
                    ..p1
                };
                let keys = Seq::new(actions@.len(), |i: int| key);
                lemma_same_lists(set.iso, p, p2);
                lemma_lists_apart(set, p2, keys, children@, actions@.len() as int);
                let p3 = export::exported_list(set, p2, keys, children@, actions@.len() as int)->Ok_0.0;
                lemma_same_lists(set.iso, p3, q);
            }
        },
    }
}

proof fn lemma_lists_apart(set: Setting, p: Progress, keys: Seq<BlobKey>, nodes: Seq<GameNode>, k: int)
    requires
        lists_are_apart(set.iso, p),
        export::exported_list(set, p, keys, nodes, k) is Ok,
    ensures
        lists_are_apart(set.iso, export::exported_list(set, p, keys, nodes, k)->Ok_0.0),
    decreases nodes, k,
{
    if 0 < k <= nodes.len() {
        lemma_lists_apart(set, p, keys, nodes, k - 1);
        let q = export::exported_list(set, p, keys, nodes, k - 1)->Ok_0.0;
        lemma_lists_stay_apart(set, q, keys[k - 1], nodes[k - 1]);
    }
}

/// A card's place in a list is where it first stands.
proof fn lemma_index_of(list: Seq<u8>, card: u8, k: int)
    requires
        0 <= k <= list.len(),
        forall|j: int| 0 <= j < k ==> list[j] != card,
    ensures
        match export::index_of(list, card, k) {
            None => !list.contains(card),
            Some(i) => 0 <= i < list.len() && list[i] == card && list.contains(card),
        },
    decreases list.len() - k,
{
    if k < list.len() && list[k] != card {
        lemma_index_of(list, card, k + 1);
    }
}

proof fn lemma_own_cards_ascend(iso: IsomorphismModel, turn: Option<u8>, set: u64, n: int)
    requires
        0 <= n <= 52,
    ensures
        ({
            let list = export::own_cards(iso, turn, set, n);
            &&& forall|i: int|
                0 <= i < list.len() ==> (#[trigger] list[i]) < n && export::holds(set, list[i])
                    && export::stand_in(iso, turn, list[i]) == list[i]
            &&& forall|i: int, j: int| 0 <= i < j < list.len() ==> #[trigger] list[i] < #[trigger] list[j]
        }),
    decreases n,
{
    if n > 0 {
        lemma_own_cards_ascend(iso, turn, set, n - 1);
        let before = export::own_cards(iso, turn, set, n - 1);
        let list = export::own_cards(iso, turn, set, n);
        assert forall|i: int, j: int| 0 <= i < j < list.len() implies #[trigger] list[i]
            < #[trigger] list[j] by {
            assert(list[i] == before[i]);
            if j < before.len() {
                assert(list[j] == before[j]);
            }
        }
        assert forall|i: int| 0 <= i < list.len() implies (#[trigger] list[i]) < n && export::holds(
            set,
            list[i],
        ) && export::stand_in(iso, turn, list[i]) == list[i] by {
            if i < before.len() {
                assert(list[i] == before[i]);
            }
        }
    }
}

proof fn lemma_cards_ascend(set: u64, n: int)
    requires
        0 <= n <= 52,
    ensures
        ({
            let list = export::cards_in(set, n);
            &&& forall|i: int|
                0 <= i < list.len() ==> (#[trigger] list[i]) < n && export::holds(set, list[i])
            &&& forall|i: int, j: int| 0 <= i < j < list.len() ==> #[trigger] list[i] < #[trigger] list[j]
        }),
    decreases n,
{
    if n > 0 {
        lemma_cards_ascend(set, n - 1);
        let before = export::cards_in(set, n - 1);
        let list = export::cards_in(set, n);
        assert forall|i: int, j: int| 0 <= i < j < list.len() implies #[trigger] list[i]
            < #[trigger] list[j] by {
            assert(list[i] == before[i]);
            if j < before.len() {
                assert(list[j] == before[j]);
            }
        }
        assert forall|i: int| 0 <= i < list.len() implies (#[trigger] list[i]) < n && export::holds(
            set,
            list[i],
        ) by {
            if i < before.len() {
                assert(list[i] == before[i]);
            }
        }
    }
}

/// A card whose subtree is stored may come, stands for itself where cards are folded, and has one
/// place among those cards.
pub proof fn lemma_stored_place(iso: IsomorphismModel, turn: Option<u8>, set: u64, folds: bool, j: int)
    requires
        0 <= j < export::stored_cards(iso, turn, set, folds).len(),
    ensures
        ({
            let list = export::stored_cards(iso, turn, set, folds);
            &&& list[j] < 52
            &&& export::holds(set, list[j])
            &&& folds ==> export::stand_in(iso, turn, list[j]) == list[j]
            &&& export::index_of(list, list[j], 0) == Some(j)
        }),
{
    let list = export::stored_cards(iso, turn, set, folds);
    lemma_own_cards_ascend(iso, turn, set, 52);
    lemma_cards_ascend(set, 52);
    lemma_index_of(list, list[j], 0);
    assert(list.contains(list[j]));
    let i = export::index_of(list, list[j], 0)->0;
    assert(list[i] == list[j]);
}

/// How often a card is among the first `k` actions.
pub open spec fn times_offered(actions: Seq<Action>, card: u8, k: int) -> int
    decreases k,
{
    if k <= 0 {
        0
    } else {
        times_offered(actions, card, k - 1) + (if actions[k - 1] == Action::Chance(card) {
            1int
        } else {
            0int
        })
    }
}

proof fn lemma_offered_count(actions: Seq<Action>, set: u64, card: u8, k: int)
    requires
        0 <= k <= actions.len(),
    ensures
        export::offered(actions, set, k).to_multiset().count(card) == (if export::holds(set, card) {
            times_offered(actions, card, k)
        } else {
            0
        }),
    decreases k,
{
    broadcast use vstd::seq_lib::group_to_multiset_ensures;

    if k > 0 {
        lemma_offered_count(actions, set, card, k - 1);
    } else {
        assert(export::offered(actions, set, 0) =~= Seq::empty());
    }
}

proof fn lemma_own_count(iso: IsomorphismModel, turn: Option<u8>, set: u64, card: u8, n: int)
    requires
        0 <= n <= 52,
    ensures
        export::own_cards(iso, turn, set, n).to_multiset().count(card) == (if card < n && export::holds(
            set,
            card,
        ) && export::stand_in(iso, turn, card) == card {
            1nat
        } else {
            0nat
        }),
    decreases n,
{
    broadcast use vstd::seq_lib::group_to_multiset_ensures;

    if n > 0 {
        lemma_own_count(iso, turn, set, card, n - 1);
    } else {
        assert(export::own_cards(iso, turn, set, 0) =~= Seq::empty());
    }
}

/// Cards are folded only where the engine has solved, of the cards that may come, exactly those that
/// stand for themselves, each once; and wherever it has, they are.
pub proof fn law_folding_is_agreed_on(iso: IsomorphismModel, turn: Option<u8>, set: u64, actions: Seq<Action>)
    ensures
        export::agreed(iso, turn, set, actions) <==> forall|card: u8|
            #![trigger times_offered(actions, card, actions.len() as int)]
            export::holds(set, card) ==> times_offered(actions, card, actions.len() as int) == (if card
                < 52 && export::stand_in(iso, turn, card) == card {
                1int
            } else {
                0int
            }),
{
    let n = actions.len() as int;
    let own = export::own_cards(iso, turn, set, 52).to_multiset();
    let offered = export::offered(actions, set, n).to_multiset();
    assert forall|card: u8|
        own.count(card) == #[trigger] offered.count(card) <==> (export::holds(set, card)
            ==> times_offered(actions, card, n) == (if card < 52 && export::stand_in(iso, turn, card)
            == card {
            1int
        } else {
            0int
        })) by {
        lemma_offered_count(actions, set, card, n);
        lemma_own_count(iso, turn, set, card, 52);
    }
    if forall|card: u8|
        #![trigger times_offered(actions, card, n)]
        export::holds(set, card) ==> times_offered(actions, card, n) == (if card < 52
            && export::stand_in(iso, turn, card) == card {
            1int
        } else {
            0int
        }) {
        assert forall|card: u8| own.count(card) == #[trigger] offered.count(card) by {
            let times = times_offered(actions, card, n);
        }
        assert(own =~= offered);
    }
    if own == offered {
        assert forall|card: u8|
            #![trigger times_offered(actions, card, n)]
            export::holds(set, card) implies times_offered(actions, card, n) == (if card < 52
            && export::stand_in(iso, turn, card) == card {
            1int
        } else {
            0int
        }) by {
            assert(own.count(card) == offered.count(card));
        }
    }
}

} // verus!
