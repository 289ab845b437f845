//! What holds of every export.

use vstd::prelude::*;

use crate::blob;
use crate::blob::{
    BlobModel, NodeModel, CHILD_NOT_STORED, FLAG_HAS_EV, FLAG_PRUNED, KIND_CHANCE, KIND_PLAYER,
    KIND_TERMINAL,
};
use crate::blob_laws;
use crate::error::Error;
use crate::export;
use crate::export::{BlobKey, GameNode, Progress, Setting, NUM_KEYS};
use crate::files::FileInfo;
use crate::ieee::{Double, Single};
use crate::packing;
use crate::strategy;

verus! {

/// A node of an export: its number is its place, it has the child slots that its kind asks for and
/// arrays of the right lengths; a player node leads to later nodes of its blob, or has no body and
/// leads nowhere.
pub open spec fn node_sound(set: Setting, at: int, n: NodeModel, len: nat) -> bool {
    &&& n.id == at
    &&& n.kind == KIND_TERMINAL || n.kind == KIND_CHANCE || n.kind == KIND_PLAYER
    &&& n.children.len() == blob::child_slots(n.kind, n.actions.len())
    &&& blob_laws::arrays_fit(n, set.oop.len(), set.ip.len())
    &&& n.flags == FLAG_PRUNED ==> n.kind == KIND_PLAYER && n.strategy.len() == 0 && n.ev.len() == 0
        && forall|k: int| 0 <= k < n.children.len() ==> #[trigger] n.children[k] == CHILD_NOT_STORED
    &&& n.kind == KIND_PLAYER ==> n.player <= 1
    &&& n.kind == KIND_PLAYER && n.flags != FLAG_PRUNED ==> forall|k: int|
        0 <= k < n.children.len() ==> at < #[trigger] n.children[k] < len
}

/// A blob of an export: its header and hands are those of its key, and its nodes are sound.
pub open spec fn blob_sound(set: Setting, place: int, b: BlobModel) -> bool {
    &&& b.header == export::fresh_blob(set, export::key_at(place)).header
    &&& b.oop == set.oop
    &&& b.ip == set.ip
    &&& b.nodes.len() <= CHILD_NOT_STORED
    &&& forall|j: int| 0 <= j < b.nodes.len() ==> node_sound(set, j, #[trigger] b.nodes[j], b.nodes.len())
}

/// How many nodes the first `k` blobs have.
pub open spec fn nodes_in(blobs: Seq<Option<BlobModel>>, k: int) -> int
    decreases k,
{
    if k <= 0 {
        0
    } else {
        nodes_in(blobs, k - 1) + len_at(blobs, k - 1)
    }
}

/// How many nodes the blob at a place has.
pub open spec fn len_at(blobs: Seq<Option<BlobModel>>, place: int) -> int {
    match blobs[place] {
        None => 0,
        Some(b) => b.nodes.len() as int,
    }
}

/// All blobs are sound, and the nodes are counted.
pub open spec fn sound(set: Setting, p: Progress) -> bool {
    &&& p.blobs.len() == NUM_KEYS
    &&& forall|i: int|
        0 <= i < p.blobs.len() && (#[trigger] p.blobs[i]) is Some ==> blob_sound(set, i, p.blobs[i]->0)
    &&& nodes_in(p.blobs, NUM_KEYS as int) == p.node_count
}

/// What was there stays as it is; more nodes may follow.
pub open spec fn extends(p: Progress, q: Progress) -> bool {
    &&& p.blobs.len() == q.blobs.len()
    &&& forall|i: int|
        0 <= i < p.blobs.len() && (#[trigger] p.blobs[i]) is Some ==> q.blobs[i] is Some
            && p.blobs[i]->0.nodes.is_prefix_of(q.blobs[i]->0.nodes)
}

proof fn lemma_extends(p: Progress, q: Progress, r: Progress)
    requires
        extends(p, q),
        extends(q, r),
    ensures
        extends(p, r),
{
    assert forall|i: int| 0 <= i < p.blobs.len() && (#[trigger] p.blobs[i]) is Some implies r.blobs[i] is Some
        && p.blobs[i]->0.nodes.is_prefix_of(r.blobs[i]->0.nodes) by {
        assert(q.blobs[i] is Some);
        let a = p.blobs[i]->0.nodes;
        let b = q.blobs[i]->0.nodes;
        let c = r.blobs[i]->0.nodes;
        assert(a =~= b.subrange(0, a.len() as int));
        assert(b =~= c.subrange(0, b.len() as int));
        assert(a =~= c.subrange(0, a.len() as int));
    }
}

/// Whether an export is sound shows in its blobs and its node count alone.
pub proof fn lemma_same_blobs(set: Setting, p: Progress, q: Progress)
    requires
        q.blobs == p.blobs,
        q.node_count == p.node_count,
    ensures
        sound(set, p) <==> sound(set, q),
{
}

proof fn lemma_nodes_in_update(blobs: Seq<Option<BlobModel>>, place: int, b: BlobModel, k: int)
    requires
        0 <= place < blobs.len(),
        0 <= k <= blobs.len(),
    ensures
        nodes_in(blobs.update(place, Some(b)), k) == nodes_in(blobs, k) + (if place < k {
            b.nodes.len() - len_at(blobs, place)
        } else {
            0
        }),
    decreases k,
{
    if k > 0 {
        lemma_nodes_in_update(blobs, place, b, k - 1);
    }
}

pub proof fn lemma_key_at(key: BlobKey)
    requires
        key.proper(),
    ensures
        export::key_at(key.place()) == key,
        0 <= key.place() < NUM_KEYS,
{
}

/// Making room for a node keeps an export sound.
pub proof fn lemma_reserved(set: Setting, p: Progress, key: BlobKey)
    requires
        sound(set, p),
        key.proper(),
        export::reserved(set, p, key) is Ok,
    ensures
        ({
            let (q, index) = export::reserved(set, p, key)->Ok_0;
            &&& sound(set, q)
            &&& extends(p, q)
            &&& index == len_at(p.blobs, key.place())
            &&& len_at(q.blobs, key.place()) == index + 1
            &&& q.blobs[key.place()] is Some
        }),
{
    let (q, index) = export::reserved(set, p, key)->Ok_0;
    let b = export::blob_of(set, p, key);
    let at = key.place();
    lemma_key_at(key);
    let c = BlobModel { nodes: b.nodes.push(export::empty_node(index)), ..b };
    lemma_nodes_in_update(p.blobs, at, c, NUM_KEYS as int);
    assert(blob_sound(set, at, c)) by {
        assert forall|j: int| 0 <= j < c.nodes.len() implies node_sound(set, j, #[trigger] c.nodes[j], c.nodes.len()) by {
            if j < b.nodes.len() {
                assert(c.nodes[j] == b.nodes[j]);
                assert(p.blobs[at] is Some);
                assert(node_sound(set, j, b.nodes[j], b.nodes.len()));
            }
        }
    }
    assert forall|i: int| 0 <= i < q.blobs.len() && (#[trigger] q.blobs[i]) is Some implies blob_sound(
        set,
        i,
        q.blobs[i]->0,
    ) by {
        if i != at {
            assert(p.blobs[i] is Some);
        }
    }
    assert forall|i: int| 0 <= i < p.blobs.len() && (#[trigger] p.blobs[i]) is Some implies q.blobs[i] is Some
        && p.blobs[i]->0.nodes.is_prefix_of(q.blobs[i]->0.nodes) by {
        assert(p.blobs[i]->0.nodes =~= q.blobs[i]->0.nodes.subrange(
            0,
            p.blobs[i]->0.nodes.len() as int,
        ));
    }
}

/// Filling in the node that a subtree has started with keeps an export sound.
proof fn lemma_filled(set: Setting, p0: Progress, p: Progress, key: BlobKey, index: u32, n: NodeModel)
    requires
        sound(set, p),
        extends(p0, p),
        key.proper(),
        p0.blobs.len() == NUM_KEYS,
        index == len_at(p0.blobs, key.place()),
        p.blobs[key.place()] is Some,
        index < len_at(p.blobs, key.place()),
        node_sound(set, index as int, n, len_at(p.blobs, key.place()) as nat),
    ensures
        sound(set, export::filled(p, key, index, n)),
        extends(p0, export::filled(p, key, index, n)),
        forall|i: int|
            0 <= i < NUM_KEYS ==> #[trigger] len_at(export::filled(p, key, index, n).blobs, i)
                == len_at(p.blobs, i),
{
    let q = export::filled(p, key, index, n);
    let at = key.place();
    lemma_key_at(key);
    let b = p.blobs[at]->0;
    let c = BlobModel { nodes: b.nodes.update(index as int, n), ..b };
    lemma_nodes_in_update(p.blobs, at, c, NUM_KEYS as int);
    assert(blob_sound(set, at, b));
    assert(blob_sound(set, at, c)) by {
        assert forall|j: int| 0 <= j < c.nodes.len() implies node_sound(set, j, #[trigger] c.nodes[j], c.nodes.len()) by {
            if j != index {
                assert(c.nodes[j] == b.nodes[j]);
                assert(node_sound(set, j, b.nodes[j], b.nodes.len()));
            }
        }
    }
    assert forall|i: int| 0 <= i < q.blobs.len() && (#[trigger] q.blobs[i]) is Some implies blob_sound(
        set,
        i,
        q.blobs[i]->0,
    ) by {
        if i != at {
            assert(p.blobs[i] is Some);
        }
    }
    assert forall|i: int| 0 <= i < p0.blobs.len() && (#[trigger] p0.blobs[i]) is Some implies q.blobs[i] is Some
        && p0.blobs[i]->0.nodes.is_prefix_of(q.blobs[i]->0.nodes) by {
        assert(p.blobs[i] is Some);
        let a = p0.blobs[i]->0.nodes;
        let d = p.blobs[i]->0.nodes;
        assert(a =~= d.subrange(0, a.len() as int));
        assert(a =~= q.blobs[i]->0.nodes.subrange(0, a.len() as int));
    }
}

/// An export of a node and all below it keeps an export sound and adds at least the node.
#[verifier::rlimit(40)]
pub proof fn law_exports_are_sound(set: Setting, p: Progress, key: BlobKey, node: GameNode)
    requires
        sound(set, p),
        key.proper(),
        export::exported(set, p, key, node) is Ok,
    ensures
        ({
            let (q, index) = export::exported(set, p, key, node)->Ok_0;
            &&& sound(set, q)
            &&& extends(p, q)
            &&& index == len_at(p.blobs, key.place())
            &&& index < len_at(q.blobs, key.place())
        }),
    decreases node, 0int,
{
    lemma_reserved(set, p, key);
    lemma_key_at(key);
    let at = key.place();
    let (p1, index) = export::reserved(set, p, key)->Ok_0;
    match node {
        GameNode::Terminal { bets } => {
            let model = NodeModel { invest: export::invested(bets@), ..export::empty_node(index) };
            lemma_filled(set, p, p1, key, index, model);
        },
        GameNode::Chance { bets, board, possible, actions, children } => {
            let turn = export::turn_of(board@);
            let folds = p1.trusted && export::agreed(set.iso, turn, possible, actions@);
            let list = export::stored_cards(set.iso, turn, possible, folds);
            let stored = turn is None || set.store_river;
            let p2 = Progress { trusted: folds, ..p1 };
            let keys = Seq::new(list.len(), |i: int| export::card_key(turn, list[i]));
            let count = if stored {
                list.len() as int
            } else {
                0
            };
            export::lemma_stored_cards(set.iso, turn, possible, folds);
            assert forall|i: int| 0 <= i < keys.len() implies (#[trigger] keys[i]).proper() by {
                assert(list[i] < 52);
                export::lemma_card_key(turn, list[i]);
            }
            assert(sound(set, p2));
            lemma_lists_are_sound(set, p2, keys, children@, count);
            let (p3, indices) = export::exported_list(set, p2, keys, children@, count)->Ok_0;
            let p4 = if turn is None {
                export::noted(p3, set.iso, possible, folds)
            } else {
                p3
            };
            let slots = export::card_slots(set.iso, turn, possible, stored, list, indices, folds);
            let model = NodeModel {
                kind: KIND_CHANCE,
                children: slots,
                invest: export::invested(bets@),
                ..export::empty_node(index)
            };
            assert(extends(p1, p3));
            assert(extends(p1, p4));
            assert(sound(set, p4));
            lemma_extends(p, p1, p4);
            assert(p1.blobs[at] is Some);
            assert(p4.blobs[at] is Some);
            lemma_filled(set, p, p4, key, index, model);
        },
        GameNode::Player { bets, board_len, player, weights, actions, solution, children } => {
            let q = export::exported(set, p, key, node)->Ok_0.0;
            let river = board_len == 5;
            let epsilon = if river {
                set.river_prune_epsilon
            } else {
                set.prune_epsilon
            };
            let n = actions@.len();
            let model = q.blobs[at]->0.nodes[index as int];
            if export::reach_of(set.root[player as int], weights@).below(epsilon) {
                let p2 = Progress { pruned_nodes: p1.pruned_nodes + 1, ..p1 };
                assert(sound(set, p2));
                assert(extends(p, p2));
                lemma_filled(set, p, p2, key, index, model);
                assert(q == export::filled(p2, key, index, model));
            } else {
                let p2 = Progress {
                    river_player_nodes: p1.river_player_nodes + (if river {
                        1int
                    } else {
                        0int
                    }),
                    ..p1
                };
                let keys = Seq::new(n, |i: int| key);
                assert(sound(set, p2));
                lemma_lists_are_sound(set, p2, keys, children@, n as int);
                let (p3, indices) = export::exported_list(set, p2, keys, children@, n as int)->Ok_0;
                assert(extends(p1, p3));
                lemma_extends(p, p1, p3);
                assert(p1.blobs[at] is Some);
                assert(p3.blobs[at] is Some);
                assert(model.children == indices);
                assert forall|k: int| 0 <= k < indices.len() implies index < #[trigger] indices[k] < len_at(
                    p3.blobs,
                    at,
                ) by {
                    assert(keys[k] == key);
                }
                lemma_filled(set, p, p3, key, index, model);
                assert(q == export::filled(p3, key, index, model));
            }
        },
    }
}

pub proof fn lemma_lists_are_sound(set: Setting, p: Progress, keys: Seq<BlobKey>, nodes: Seq<GameNode>, k: int)
    requires
        sound(set, p),
        k <= nodes.len(),
        k <= keys.len(),
        forall|i: int| 0 <= i < keys.len() ==> (#[trigger] keys[i]).proper(),
        export::exported_list(set, p, keys, nodes, k) is Ok,
    ensures
        ({
            let (q, indices) = export::exported_list(set, p, keys, nodes, k)->Ok_0;
            &&& sound(set, q)
            &&& extends(p, q)
            &&& k >= 0 ==> indices.len() == k
            &&& forall|i: int|
                0 <= i < k ==> len_at(p.blobs, keys[i].place()) <= #[trigger] indices[i] < len_at(
                    q.blobs,
                    keys[i].place(),
                )
        }),
    decreases nodes, k,
{
    if k > 0 {
        lemma_lists_are_sound(set, p, keys, nodes, k - 1);
        let (q, before) = export::exported_list(set, p, keys, nodes, k - 1)->Ok_0;
        let key = keys[k - 1];
        assert(key.proper());
        law_exports_are_sound(set, q, key, nodes[k - 1]);
        let (r, index) = export::exported(set, q, key, nodes[k - 1])->Ok_0;
        lemma_extends(p, q, r);
        let indices = before.push(index);
        assert forall|i: int| 0 <= i < k implies len_at(p.blobs, keys[i].place()) <= #[trigger] indices[i]
            < len_at(r.blobs, keys[i].place()) by {
            let at = keys[i].place();
            lemma_key_at(keys[i]);
            if i < k - 1 {
                assert(indices[i] == before[i]);
                assert(q.blobs[at] is Some);
            } else {
                assert(p.blobs[at] is Some ==> q.blobs[at] is Some);
            }
        }
    }
}

/// An export that has come to nothing yet is sound.
pub proof fn law_exports_start_sound(set: Setting)
    ensures
        sound(set, export::nothing_yet()),
{
    lemma_no_nodes(NUM_KEYS as int);
}

proof fn lemma_no_nodes(k: int)
    requires
        k <= NUM_KEYS,
    ensures
        nodes_in(export::nothing_yet().blobs, k) == 0,
    decreases k,
{
    if k > 0 {
        lemma_no_nodes(k - 1);
    }
}

/// A whole export: its root is node zero of the starting blob, and the node count is the number of
/// nodes in all blobs.
pub proof fn law_whole_exports(set: Setting, tree: GameNode)
    requires
        export::exported(set, export::nothing_yet(), BlobKey::Start, tree) is Ok,
    ensures
        ({
            let (q, index) = export::exported(set, export::nothing_yet(), BlobKey::Start, tree)->Ok_0;
            &&& index == 0
            &&& sound(set, q)
            &&& q.node_count == nodes_in(q.blobs, NUM_KEYS as int)
            &&& q.blobs[0] is Some
        }),
{
    law_exports_start_sound(set);
    law_exports_are_sound(set, export::nothing_yet(), BlobKey::Start, tree);
}

proof fn lemma_no_child_fault(nodes: Seq<NodeModel>, k: int)
    requires
        0 <= k,
        forall|j: int|
            0 <= j < nodes.len() ==> (#[trigger] nodes[j]).children.len() == blob::child_slots(
                nodes[j].kind,
                nodes[j].actions.len(),
            ),
    ensures
        match blob::first_fault(nodes, k) {
            None => true,
            Some(e) => e is TooManyActions,
        },
    decreases nodes.len() - k,
{
    if k < nodes.len() {
        assert(nodes[k].children.len() == blob::child_slots(nodes[k].kind, nodes[k].actions.len()));
        lemma_no_child_fault(nodes, k + 1);
    }
}

/// A blob of an export can be written unless its board, its hands, a node's actions or the whole
/// are of a size that the format does not have; and reading what was written gives it back.
pub proof fn law_exported_blobs_read_back(set: Setting, place: int, b: BlobModel)
    requires
        blob_sound(set, place, b),
    ensures
        match blob::write_fault(b) {
            None => blob::decode(blob::encode(b)) == Ok::<BlobModel, Error>(b),
            Some(e) => e is BoardLength || e is TooManyActions || e is TooManyHands || e is TooLarge,
        },
{
    assert forall|j: int| 0 <= j < b.nodes.len() implies (#[trigger] b.nodes[j]).children.len()
        == blob::child_slots(b.nodes[j].kind, b.nodes[j].actions.len()) && blob_laws::arrays_fit(
        b.nodes[j],
        b.oop.len(),
        b.ip.len(),
    ) by {
        assert(node_sound(set, j, b.nodes[j], b.nodes.len()));
    }
    lemma_no_child_fault(b.nodes, 0);
    if blob::write_fault(b) is None {
        blob_laws::law_round_trip(b);
    }
}

/// How many nodes of a subtree are stored.
pub open spec fn stored_size(set: Setting, node: GameNode) -> int
    decreases node, 0int,
{
    match node {
        GameNode::Terminal { bets } => 1,
        GameNode::Chance { bets, board, possible, actions, children } => if export::turn_of(board@) is None
            || set.store_river {
            1 + stored_sizes(set, children@, children@.len() as int)
        } else {
            1
        },
        GameNode::Player { bets, board_len, player, weights, actions, solution, children } => {
            let epsilon = if board_len == 5 {
                set.river_prune_epsilon
            } else {
                set.prune_epsilon
            };
            if export::reach_of(set.root[player as int], weights@).below(epsilon) {
                1
            } else {
                1 + stored_sizes(set, children@, children@.len() as int)
            }
        },
    }
}

/// How many nodes of the first `k` of some subtrees are stored.
pub open spec fn stored_sizes(set: Setting, nodes: Seq<GameNode>, k: int) -> int
    decreases nodes, k,
{
    if k <= 0 || k > nodes.len() {
        0
    } else {
        stored_sizes(set, nodes, k - 1) + stored_size(set, nodes[k - 1])
    }
}

/// An export counts the nodes that it stores.
pub proof fn law_nodes_are_counted(set: Setting, p: Progress, key: BlobKey, node: GameNode)
    requires
        export::exported(set, p, key, node) is Ok,
    ensures
        export::exported(set, p, key, node)->Ok_0.0.node_count == p.node_count + stored_size(set, node),
    decreases node, 0int,
{
    let (p1, index) = export::reserved(set, p, key)->Ok_0;
    match node {
        GameNode::Terminal { bets } => {},
        GameNode::Chance { bets, board, possible, actions, children } => {
            let turn = export::turn_of(board@);
            let folds = p1.trusted && export::agreed(set.iso, turn, possible, actions@);
            let list = export::stored_cards(set.iso, turn, possible, folds);
            let stored = turn is None || set.store_river;
            let p2 = Progress { trusted: folds, ..p1 };
            let keys = Seq::new(list.len(), |i: int| export::card_key(turn, list[i]));
            if stored {
                lemma_lists_are_counted(set, p2, keys, children@, list.len() as int);
            }
        },
        GameNode::Player { bets, board_len, player, weights, actions, solution, children } => {
            let river = board_len == 5;
            let epsilon = if river {
                set.river_prune_epsilon
            } else {
                set.prune_epsilon
            };
            if !export::reach_of(set.root[player as int], weights@).below(epsilon) {
                let p2 = Progress {
                    river_player_nodes: p1.river_player_nodes + (if river {
                        1int
                    } else {
                        0int
                    }),
                    ..p1
                };
                let keys = Seq::new(actions@.len(), |i: int| key);
                lemma_lists_are_counted(set, p2, keys, children@, actions@.len() as int);
            }
        },
    }
}

proof fn lemma_lists_are_counted(set: Setting, p: Progress, keys: Seq<BlobKey>, nodes: Seq<GameNode>, k: int)
    requires
        export::exported_list(set, p, keys, nodes, k) is Ok,
    ensures
        export::exported_list(set, p, keys, nodes, k)->Ok_0.0.node_count == p.node_count + stored_sizes(
            set,
            nodes,
            k,
        ),
    decreases nodes, k,
{
    if 0 < k <= nodes.len() {
        lemma_lists_are_counted(set, p, keys, nodes, k - 1);
        let q = export::exported_list(set, p, keys, nodes, k - 1)->Ok_0.0;
        law_nodes_are_counted(set, q, keys[k - 1], nodes[k - 1]);
    }
}

/// A higher threshold for river nodes stores no more nodes.
pub proof fn law_higher_thresholds_store_less(set: Setting, epsilon: Double, node: GameNode)
    requires
        set.river_prune_epsilon.at_most(epsilon),
    ensures
        1 <= stored_size(Setting { river_prune_epsilon: epsilon, ..set }, node) <= stored_size(
            set,
            node,
        ),
    decreases node, 0int,
{
    match node {
        GameNode::Terminal { bets } => {},
        GameNode::Chance { bets, board, possible, actions, children } => {
            lemma_higher_thresholds_store_less(set, epsilon, children@, children@.len() as int);
        },
        GameNode::Player { bets, board_len, player, weights, actions, solution, children } => {
            lemma_higher_thresholds_store_less(set, epsilon, children@, children@.len() as int);
        },
    }
}

proof fn lemma_higher_thresholds_store_less(set: Setting, epsilon: Double, nodes: Seq<GameNode>, k: int)
    requires
        set.river_prune_epsilon.at_most(epsilon),
    ensures
        0 <= stored_sizes(Setting { river_prune_epsilon: epsilon, ..set }, nodes, k) <= stored_sizes(
            set,
            nodes,
            k,
        ),
    decreases nodes, k,
{
    if 0 < k <= nodes.len() {
        lemma_higher_thresholds_store_less(set, epsilon, nodes, k - 1);
        law_higher_thresholds_store_less(set, epsilon, nodes[k - 1]);
    }
}

/// A node is the same, or the same without its EVs.
pub open spec fn same_but_ev(n: NodeModel, m: NodeModel) -> bool {
    m == n || (n.flags == FLAG_HAS_EV && m == (NodeModel {
        flags: 0,
        ev: Seq::empty(),
        ev_scale: Single { bits: 0 },
        ..n
    }))
}

/// Blobs are the same, but for nodes without their EVs.
pub open spec fn blobs_same_but_ev(b: BlobModel, c: BlobModel) -> bool {
    &&& c.header == b.header
    &&& c.oop == b.oop
    &&& c.ip == b.ip
    &&& c.nodes.len() == b.nodes.len()
    &&& forall|j: int| 0 <= j < b.nodes.len() ==> same_but_ev(#[trigger] b.nodes[j], c.nodes[j])
}

/// Two exports are the same, but for nodes without their EVs.
pub open spec fn exports_same_but_ev(p: Progress, q: Progress) -> bool {
    &&& q == (Progress { blobs: q.blobs, ..p })
    &&& q.blobs.len() == p.blobs.len()
    &&& forall|i: int|
        0 <= i < p.blobs.len() ==> match (#[trigger] p.blobs[i], q.blobs[i]) {
            (None, None) => true,
            (Some(b), Some(c)) => blobs_same_but_ev(b, c),
            _ => false,
        }
}

proof fn lemma_filled_alike(p: Progress, q: Progress, key: BlobKey, index: u32, n: NodeModel, m: NodeModel)
    requires
        exports_same_but_ev(p, q),
        same_but_ev(n, m),
        0 <= key.place() < p.blobs.len(),
        p.blobs[key.place()] is Some,
        index < p.blobs[key.place()]->0.nodes.len(),
    ensures
        exports_same_but_ev(export::filled(p, key, index, n), export::filled(q, key, index, m)),
{
    let at = key.place();
    let b = p.blobs[at]->0;
    let c = q.blobs[at]->0;
    assert(blobs_same_but_ev(b, c));
    let p2 = export::filled(p, key, index, n);
    let q2 = export::filled(q, key, index, m);
    assert forall|i: int| 0 <= i < p2.blobs.len() implies match (#[trigger] p2.blobs[i], q2.blobs[i]) {
        (None, None) => true,
        (Some(b), Some(c)) => blobs_same_but_ev(b, c),
        _ => false,
    } by {
        if i != at {
            assert(p2.blobs[i] == p.blobs[i]);
        }
    }
}

/// Leaving out the EVs of river nodes changes nothing else: the export succeeds where it does with
/// them, gives the nodes the same numbers, and each node is the same but for its EVs.
pub proof fn law_river_evs_can_be_left_out(set: Setting, p: Progress, q: Progress, key: BlobKey, node: GameNode)
    requires
        set.river_ev,
        p.blobs.len() == NUM_KEYS,
        key.proper(),
        exports_same_but_ev(p, q),
        export::exported(set, p, key, node) is Ok,
    ensures
        ({
            let without = export::exported(Setting { river_ev: false, ..set }, q, key, node);
            &&& without is Ok
            &&& without->Ok_0.1 == export::exported(set, p, key, node)->Ok_0.1
            &&& exports_same_but_ev(export::exported(set, p, key, node)->Ok_0.0, without->Ok_0.0)
        }),
    decreases node, 0int,
{
    let off = Setting { river_ev: false, ..set };
    let at = key.place();
    lemma_key_at(key);
    export::lemma_reserved(set, p, key);
    let (p1, index) = export::reserved(set, p, key)->Ok_0;
    assert(match (p.blobs[at], q.blobs[at]) {
        (None, None) => true,
        (Some(b), Some(c)) => blobs_same_but_ev(b, c),
        _ => false,
    });
    let (q1, same_index) = export::reserved(off, q, key)->Ok_0;
    assert(same_index == index);
    assert(exports_same_but_ev(p1, q1)) by {
        assert forall|i: int| 0 <= i < p1.blobs.len() implies match (#[trigger] p1.blobs[i], q1.blobs[i]) {
            (None, None) => true,
            (Some(b), Some(c)) => blobs_same_but_ev(b, c),
            _ => false,
        } by {
            if i != at {
                assert(p1.blobs[i] == p.blobs[i]);
            }
        }
    }
    match node {
        GameNode::Terminal { bets } => {
            let model = NodeModel { invest: export::invested(bets@), ..export::empty_node(index) };
            lemma_filled_alike(p1, q1, key, index, model, model);
        },
        GameNode::Chance { bets, board, possible, actions, children } => {
            let turn = export::turn_of(board@);
            let folds = p1.trusted && export::agreed(set.iso, turn, possible, actions@);
            let list = export::stored_cards(set.iso, turn, possible, folds);
            let stored = turn is None || set.store_river;
            let p2 = Progress { trusted: folds, ..p1 };
            let q2 = Progress { trusted: folds, ..q1 };
            let keys = Seq::new(list.len(), |i: int| export::card_key(turn, list[i]));
            let count = if stored {
                list.len() as int
            } else {
                0
            };
            export::lemma_stored_cards(set.iso, turn, possible, folds);
            assert forall|i: int| 0 <= i < keys.len() implies (#[trigger] keys[i]).proper() by {
                assert(list[i] < 52);
                export::lemma_card_key(turn, list[i]);
            }
            assert(exports_same_but_ev(p2, q2));
            lemma_lists_without_ev(set, p2, q2, keys, children@, count);
            export::lemma_exported_list_grows(set, p2, keys, children@, count);
            let (p3, indices) = export::exported_list(set, p2, keys, children@, count)->Ok_0;
            let q3 = export::exported_list(off, q2, keys, children@, count)->Ok_0.0;
            let p4 = if turn is None {
                export::noted(p3, set.iso, possible, folds)
            } else {
                p3
            };
            let q4 = if turn is None {
                export::noted(q3, set.iso, possible, folds)
            } else {
                q3
            };
            let model = NodeModel {
                kind: KIND_CHANCE,
                children: export::card_slots(set.iso, turn, possible, stored, list, indices, folds),
                invest: export::invested(bets@),
                ..export::empty_node(index)
            };
            assert(exports_same_but_ev(p4, q4));
            assert(p1.blobs[at] is Some);
            assert(p4.blobs[at] is Some);
            lemma_filled_alike(p4, q4, key, index, model, model);
        },
        GameNode::Player { bets, board_len, player, weights, actions, solution, children } => {
            let river = board_len == 5;
            let epsilon = if river {
                set.river_prune_epsilon
            } else {
                set.prune_epsilon
            };
            let n = actions@.len();
            if export::reach_of(set.root[player as int], weights@).below(epsilon) {
                let p2 = Progress { pruned_nodes: p1.pruned_nodes + 1, ..p1 };
                let q2 = Progress { pruned_nodes: p1.pruned_nodes + 1, ..q1 };
                let r = export::exported(set, p, key, node)->Ok_0.0;
                let model = r.blobs[at]->0.nodes[index as int];
                assert(exports_same_but_ev(p2, q2));
                lemma_filled_alike(p2, q2, key, index, model, model);
            } else {
                let count = p1.river_player_nodes + (if river {
                    1int
                } else {
                    0int
                });
                let p2 = Progress { river_player_nodes: count, ..p1 };
                let q2 = Progress { river_player_nodes: count, ..q1 };
                let keys = Seq::new(n, |i: int| key);
                    assert(exports_same_but_ev(p2, q2));
                lemma_lists_without_ev(set, p2, q2, keys, children@, n as int);
                export::lemma_exported_list_grows(set, p2, keys, children@, n as int);
                let p3 = export::exported_list(set, p2, keys, children@, n as int)->Ok_0.0;
                let q3 = export::exported_list(off, q2, keys, children@, n as int)->Ok_0.0;
                let r = export::exported(set, p, key, node)->Ok_0.0;
                let s = export::exported(off, q, key, node)->Ok_0.0;
                assert(p1.blobs[at] is Some);
                assert(p3.blobs[at] is Some);
                let model = r.blobs[at]->0.nodes[index as int];
                let other = s.blobs[at]->0.nodes[index as int];
                assert(blobs_same_but_ev(p3.blobs[at]->0, q3.blobs[at]->0));
                assert(same_but_ev(model, other));
                lemma_filled_alike(p3, q3, key, index, model, other);
            }
        },
    }
}

proof fn lemma_lists_without_ev(
    set: Setting,
    p: Progress,
    q: Progress,
    keys: Seq<BlobKey>,
    nodes: Seq<GameNode>,
    k: int,
)
    requires
        set.river_ev,
        p.blobs.len() == NUM_KEYS,
        exports_same_but_ev(p, q),
        k <= nodes.len(),
        k <= keys.len(),
        forall|i: int| 0 <= i < keys.len() ==> (#[trigger] keys[i]).proper(),
        export::exported_list(set, p, keys, nodes, k) is Ok,
    ensures
        ({
            let without = export::exported_list(Setting { river_ev: false, ..set }, q, keys, nodes, k);
            &&& without is Ok
            &&& without->Ok_0.1 == export::exported_list(set, p, keys, nodes, k)->Ok_0.1
            &&& exports_same_but_ev(
                export::exported_list(set, p, keys, nodes, k)->Ok_0.0,
                without->Ok_0.0,
            )
        }),
    decreases nodes, k,
{
    if k > 0 {
        let off = Setting { river_ev: false, ..set };
        lemma_lists_without_ev(set, p, q, keys, nodes, k - 1);
        export::lemma_exported_list_grows(set, p, keys, nodes, k - 1);
        let p1 = export::exported_list(set, p, keys, nodes, k - 1)->Ok_0.0;
        let q1 = export::exported_list(off, q, keys, nodes, k - 1)->Ok_0.0;
        assert(keys[k - 1].proper());
        law_river_evs_can_be_left_out(set, p1, q1, keys[k - 1], nodes[k - 1]);
    }
}

/// What a file of an export holds is read back as the blob that it was made from.
pub proof fn law_files_read_back(set: Setting, key: BlobKey, b: BlobModel, info: FileInfo, content: Seq<u8>)
    requires
        key.proper(),
        blob_sound(set, key.place(), b),
        blob::write_fault(b) is None,
        export::holds_blob(set, key, b, info, content),
    ensures
        ({
            let bytes = if set.compress {
                packing::brotli_decoded(content)
            } else {
                Some(content)
            };
            &&& bytes is Some
            &&& info.bytes_raw == bytes->0.len()
            &&& blob::decode(bytes->0) == Ok::<BlobModel, Error>(b)
            &&& info.nodes == b.nodes.len()
            &&& b.header.street == (match key {
                BlobKey::Start => set.header.street,
                BlobKey::Turn(_) => 1,
                BlobKey::River(_, _) => 2,
            })
        }),
{
    lemma_key_at(key);
    law_exported_blobs_read_back(set, key.place(), b);
}

/// The keys of an export are those of its blobs, and each is there once.
pub proof fn law_keys_have_blobs(blobs: Seq<Option<BlobModel>>, k: int, i: int)
    requires
        blobs.len() == NUM_KEYS,
        0 <= k <= NUM_KEYS,
        0 <= i < export::keys_of(blobs, k).len(),
    ensures
        export::keys_of(blobs, k)[i].proper(),
        export::keys_of(blobs, k)[i].place() < k,
        blobs[export::keys_of(blobs, k)[i].place()] is Some,
        forall|j: int|
            0 <= j < i ==> (#[trigger] export::keys_of(blobs, k)[j]).place() < export::keys_of(
                blobs,
                k,
            )[i].place(),
    decreases k,
{
    let last = export::key_at(k - 1);
    assert(last.proper() && last.place() == k - 1) by {
        let x = k - 54;
        if k >= 54 {
            assert(0 <= x < 2704);
            assert(x == 52 * (x / 52) + x % 52);
        }
    }
    let before = export::keys_of(blobs, k - 1);
    if i < before.len() {
        law_keys_have_blobs(blobs, k - 1, i);
        assert forall|j: int| 0 <= j < i implies (#[trigger] export::keys_of(blobs, k)[j]).place()
            < export::keys_of(blobs, k)[i].place() by {
            assert(before[j] == export::keys_of(blobs, k)[j]);
        }
    } else {
        assert forall|j: int| 0 <= j < i implies (#[trigger] export::keys_of(blobs, k)[j]).place() < k - 1 by {
            law_keys_have_blobs(blobs, k - 1, j);
            assert(before[j] == export::keys_of(blobs, k)[j]);
        }
    }
}

/// There are no blobs of rivers.
pub open spec fn no_rivers(p: Progress) -> bool {
    forall|i: int| 53 <= i < p.blobs.len() ==> (#[trigger] p.blobs[i]) is None
}

/// Rivers have blobs of their own only where they are to be stored.
pub proof fn law_rivers_only_when_asked(set: Setting, p: Progress, key: BlobKey, node: GameNode)
    requires
        !set.store_river,
        p.blobs.len() == NUM_KEYS,
        no_rivers(p),
        key.proper(),
        !(key is River),
        export::exported(set, p, key, node) is Ok,
    ensures
        no_rivers(export::exported(set, p, key, node)->Ok_0.0),
        export::exported(set, p, key, node)->Ok_0.0.blobs.len() == NUM_KEYS,
    decreases node, 0int,
{
    let (p1, index) = export::reserved(set, p, key)->Ok_0;
    assert(key.place() < 53);
    match node {
        GameNode::Terminal { bets } => {},
        GameNode::Chance { bets, board, possible, actions, children } => {
            let turn = export::turn_of(board@);
            let folds = p1.trusted && export::agreed(set.iso, turn, possible, actions@);
            let list = export::stored_cards(set.iso, turn, possible, folds);
            let p2 = Progress { trusted: folds, ..p1 };
            let keys = Seq::new(list.len(), |i: int| export::card_key(turn, list[i]));
            let count = if turn is None {
                list.len() as int
            } else {
                0
            };
            export::lemma_stored_cards(set.iso, turn, possible, folds);
            if turn is None {
                assert forall|i: int| 0 <= i < keys.len() implies (#[trigger] keys[i]).proper() && !(keys[i] is River) by {
                    assert(list[i] < 52);
                    export::lemma_card_key(turn, list[i]);
                }
            }
            lemma_lists_without_rivers(set, p2, keys, children@, count);
        },
        GameNode::Player { bets, board_len, player, weights, actions, solution, children } => {
            let river = board_len == 5;
            let epsilon = if river {
                set.river_prune_epsilon
            } else {
                set.prune_epsilon
            };
            if !export::reach_of(set.root[player as int], weights@).below(epsilon) {
                let p2 = Progress {
                    river_player_nodes: p1.river_player_nodes + (if river {
                        1int
                    } else {
                        0int
                    }),
                    ..p1
                };
                let keys = Seq::new(actions@.len(), |i: int| key);
                lemma_lists_without_rivers(set, p2, keys, children@, actions@.len() as int);
            }
        },
    }
}

proof fn lemma_lists_without_rivers(set: Setting, p: Progress, keys: Seq<BlobKey>, nodes: Seq<GameNode>, k: int)
    requires
        !set.store_river,
        p.blobs.len() == NUM_KEYS,
        no_rivers(p),
        k <= keys.len(),
        k > 0 ==> forall|i: int|
            0 <= i < keys.len() ==> (#[trigger] keys[i]).proper() && !(keys[i] is River),
        export::exported_list(set, p, keys, nodes, k) is Ok,
    ensures
        no_rivers(export::exported_list(set, p, keys, nodes, k)->Ok_0.0),
        export::exported_list(set, p, keys, nodes, k)->Ok_0.0.blobs.len() == NUM_KEYS,
    decreases nodes, k,
{
    if 0 < k <= nodes.len() {
        lemma_lists_without_rivers(set, p, keys, nodes, k - 1);
        let q = export::exported_list(set, p, keys, nodes, k - 1)->Ok_0.0;
        assert(keys[k - 1].proper());
        law_rivers_only_when_asked(set, q, keys[k - 1], nodes[k - 1]);
    }
}

/// A stored player node: without a body where it is reached too rarely, and then its children are
/// not stored; else with a slot and strategy for its actions and hands, and with EVs unless it is on
/// the river and those are left out. The strategy does not depend on whether EVs are stored.
pub open spec fn is_player_node(set: Setting, node: GameNode, n: NodeModel) -> bool {
    let player = node->player;
    let actions = node->Player_actions@.len();
    let hands = blob::hands_of(player, set.oop.len(), set.ip.len());
    let river = node->board_len == 5;
    let epsilon = if river {
        set.river_prune_epsilon
    } else {
        set.prune_epsilon
    };
    &&& n.kind == KIND_PLAYER
    &&& n.player == player
    &&& n.actions.len() == actions
    &&& n.children.len() == actions
    &&& if export::reach_of(set.root[player as int], node->weights@).below(epsilon) {
        &&& n.flags == FLAG_PRUNED
        &&& n.strategy.len() == 0
        &&& n.ev.len() == 0
        &&& forall|k: int| 0 <= k < actions ==> #[trigger] n.children[k] == CHILD_NOT_STORED
    } else {
        &&& node->solution is Some
        &&& n.strategy == strategy::quantized(
            node->solution->0.frequencies(),
            actions as int,
            hands as int,
        )
        &&& actions > 0 ==> n.strategy.len() == (actions - 1) * hands
        &&& if river && !set.river_ev {
            n.flags == 0 && n.ev.len() == 0 && n.ev_scale == (Single { bits: 0 })
        } else {
            n.flags == FLAG_HAS_EV && n.ev.len() == actions * hands
        }
    }
}

/// Every player node is stored as it should be, whatever has been exported before.
pub proof fn law_player_nodes(set: Setting, p: Progress, key: BlobKey, node: GameNode)
    requires
        p.blobs.len() == NUM_KEYS,
        key.proper(),
        node is Player,
        export::exported(set, p, key, node) is Ok,
    ensures
        ({
            let (q, index) = export::exported(set, p, key, node)->Ok_0;
            &&& q.blobs[key.place()] is Some
            &&& index < q.blobs[key.place()]->0.nodes.len()
            &&& is_player_node(set, node, q.blobs[key.place()]->0.nodes[index as int])
        }),
{
    lemma_key_at(key);
    export::lemma_reserved(set, p, key);
    let at = key.place();
    let (p1, index) = export::reserved(set, p, key)->Ok_0;
    let q = export::exported(set, p, key, node)->Ok_0.0;
    match node {
        GameNode::Player { bets, board_len, player, weights, actions, solution, children } => {
            let river = board_len == 5;
            let epsilon = if river {
                set.river_prune_epsilon
            } else {
                set.prune_epsilon
            };
            let n = actions@.len();
            let hands = blob::hands_of(player, set.oop.len(), set.ip.len());
            if !export::reach_of(set.root[player as int], weights@).below(epsilon) {
                let p2 = Progress {
                    river_player_nodes: p1.river_player_nodes + (if river {
                        1int
                    } else {
                        0int
                    }),
                    ..p1
                };
                let keys = Seq::new(n, |i: int| key);
                export::lemma_exported_list_grows(set, p2, keys, children@, n as int);
                let p3 = export::exported_list(set, p2, keys, children@, n as int)->Ok_0.0;
                assert(p1.blobs[at] is Some);
                assert(p3.blobs[at] is Some);
                if n == 1 {
                    assert((n - 1) * hands == 0) by (nonlinear_arith)
                        requires
                            n == 1,
                    ;
                }
                if hands == 0 {
                    assert((n - 1) * hands == 0) by (nonlinear_arith)
                        requires
                            hands == 0,
                    ;
                }
            }
        },
        _ => {},
    }
}

/// The nodes of the first `k` files together.
pub open spec fn node_total(list: Seq<FileInfo>, k: int) -> int
    decreases k,
{
    if k <= 0 {
        0
    } else {
        node_total(list, k - 1) + list[k - 1].nodes
    }
}

/// The files of an export hold all its nodes: what is said of their numbers adds up to the number
/// of nodes that is reported.
pub proof fn law_files_hold_all_nodes(set: Setting, p: Progress, list: Seq<FileInfo>, contents: Seq<Seq<u8>>)
    requires
        sound(set, p),
        ({
            let keys = export::keys_of(p.blobs, NUM_KEYS as int);
            &&& list.len() == keys.len()
            &&& contents.len() == keys.len()
            &&& forall|i: int|
                0 <= i < keys.len() ==> export::holds_blob(
                    set,
                    keys[i],
                    p.blobs[keys[i].place()]->0,
                    #[trigger] list[i],
                    contents[i],
                )
        }),
    ensures
        node_total(list, list.len() as int) == p.node_count,
{
    lemma_files_hold_nodes(set, p, list, contents, NUM_KEYS as int);
}

proof fn lemma_files_hold_nodes(
    set: Setting,
    p: Progress,
    list: Seq<FileInfo>,
    contents: Seq<Seq<u8>>,
    k: int,
)
    requires
        sound(set, p),
        0 <= k <= NUM_KEYS,
        ({
            let keys = export::keys_of(p.blobs, k);
            &&& list.len() >= keys.len()
            &&& contents.len() >= keys.len()
            &&& forall|i: int|
                0 <= i < keys.len() ==> export::holds_blob(
                    set,
                    keys[i],
                    p.blobs[keys[i].place()]->0,
                    #[trigger] list[i],
                    contents[i],
                )
        }),
    ensures
        node_total(list, export::keys_of(p.blobs, k).len() as int) == nodes_in(p.blobs, k),
    decreases k,
{
    if k > 0 {
        let keys = export::keys_of(p.blobs, k);
        let before = export::keys_of(p.blobs, k - 1);
        assert forall|i: int| 0 <= i < before.len() implies export::holds_blob(
            set,
            before[i],
            p.blobs[before[i].place()]->0,
            #[trigger] list[i],
            contents[i],
        ) by {
            assert(before[i] == keys[i]);
        }
        lemma_files_hold_nodes(set, p, list, contents, k - 1);
        if p.blobs[k - 1] is Some {
            let i = before.len() as int;
            law_keys_have_blobs(p.blobs, k, i);
            assert(keys[i] == export::key_at(k - 1));
            assert(keys[i].place() == k - 1) by {
                let x = k - 54;
                if k >= 54 {
                    assert(0 <= x < 2704);
                    assert(x == 52 * (x / 52) + x % 52);
                }
            }
            assert(blob_sound(set, k - 1, p.blobs[k - 1]->0));
            assert(export::holds_blob(set, keys[i], p.blobs[k - 1]->0, list[i], contents[i]));
        }
    }
}

} // verus!
