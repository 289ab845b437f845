//! From a solved game to blobs.
//!
//! There is one blob for the starting street, one for each turn card where the game starts on the
//! flop, and one for each turn and river card where rivers are stored. A node where a card is
//! dealt stays in its own street's blob; its child slots are node numbers in the blobs of the
//! next street. Cards of the engine are the engine's; cards of keys and child slots are ours.

use vstd::prelude::*;

use crate::action_laws;
use crate::arith;
use crate::blob;
use crate::blob::{
    Blob, BlobAction, BlobHeader, BlobModel, BlobNode, HeaderModel, NodeModel, ACTION_ALLIN, ACTION_BET,
    ACTION_CALL, ACTION_CHECK, ACTION_FOLD, ACTION_RAISE, CHILD_IMPOSSIBLE, CHILD_NOT_STORED,
    FLAG_HAS_EV, FLAG_PRUNED, KIND_CHANCE, KIND_PLAYER, KIND_TERMINAL, PLAYER_NONE,
};
use crate::cards;
use crate::error::Error;
use crate::ev;
use crate::export_laws;
use crate::files;
use crate::files::named_card;
pub use crate::files::{blob_path, stored_file, ExportSummary, FileInfo};
use crate::ieee::{Double, Single};
use crate::packing;
pub use crate::packing::{compress, decompress};
use crate::signed;
use crate::solution;
pub use crate::solution::{Solution, Weights};
use crate::strategy;
use crate::sums;
use crate::text;
use crate::tree;
use crate::tree::{Isomorphism, IsomorphismModel};

verus! {

/// The bit pattern of 0.00001: player nodes that are reached less often are stored without a body.
pub const DEFAULT_PRUNE_EPSILON: u64 = 0x3EE4_F8B5_88E3_68F1;

/// Whether river nodes have EVs when nothing is said.
pub const DEFAULT_RIVER_EV: bool = true;

/// The number of possible blobs.
pub const NUM_KEYS: usize = 2757;

/// Which blob a node is in.
#[derive(Debug, Clone, Copy, PartialEq, Eq, PartialOrd, Ord, Structural)]
pub enum BlobKey {
    /// The starting street.
    Start,
    /// The turn after this card.
    Turn(u8),
    /// The river after this turn and this river card.
    River(u8, u8),
}

impl BlobKey {
    /// The cards are among the 52.
    pub open spec fn proper(self) -> bool {
        match self {
            BlobKey::Start => true,
            BlobKey::Turn(c) => c < 52,
            BlobKey::River(t, r) => t < 52 && r < 52,
        }
    }

    /// The place of the key among all keys, in order.
    pub open spec fn place(self) -> int {
        match self {
            BlobKey::Start => 0,
            BlobKey::Turn(c) => 1 + c,
            BlobKey::River(t, r) => 53 + 52 * t + r,
        }
    }
}

/// An action of the engine.
#[derive(Debug, Clone, Copy, PartialEq, Eq, Structural)]
pub enum Action {
    Nothing,
    Fold,
    Check,
    Call,
    Bet(i32),
    Raise(i32),
    AllIn(i32),
    Chance(u8),
}

/// An action as a blob has it: its kind, and the amount in big blinds.
pub open spec fn blob_action(action: Action) -> BlobAction {
    let (kind, amount) = match action {
        Action::Fold => (ACTION_FOLD, 0int),
        Action::Check => (ACTION_CHECK, 0int),
        Action::Call => (ACTION_CALL, 0int),
        Action::Bet(amount) => (ACTION_BET, amount as int),
        Action::Raise(amount) => (ACTION_RAISE, amount as int),
        Action::AllIn(amount) => (ACTION_ALLIN, amount as int),
        Action::Chance(_) => (ACTION_CHECK, 0int),
        Action::Nothing => (ACTION_CHECK, 0int),
    };
    BlobAction { kind, amount: arith::big_blinds_of(amount) }
}

/// An action as a blob has it.
pub fn action_to_blob(action: &Action) -> (r: BlobAction)
    ensures
        r == blob_action(*action),
        action_laws::is_action(*action, r),
{
    proof {
        action_laws::lemma_action(*action);
    }
    let (kind, amount): (u8, i32) = match *action {
        Action::Fold => (ACTION_FOLD, 0),
        Action::Check => (ACTION_CHECK, 0),
        Action::Call => (ACTION_CALL, 0),
        Action::Bet(amount) => (ACTION_BET, amount),
        Action::Raise(amount) => (ACTION_RAISE, amount),
        Action::AllIn(amount) => (ACTION_ALLIN, amount),
        Action::Chance(_) => (ACTION_CHECK, 0),
        Action::Nothing => (ACTION_CHECK, 0),
    };
    BlobAction { kind, amount: arith::big_blinds(amount) }
}

/// A node of a solved game.
pub enum GameNode {
    Terminal {
        /// The chips that each player has put in.
        bets: [i32; 2],
    },
    /// A card is dealt.
    Chance {
        bets: [i32; 2],
        board: Vec<u8>,
        /// The cards that may come, as a set of bits.
        possible: u64,
        /// What the engine offers: the cards that it has solved.
        actions: Vec<Action>,
        /// The nodes after the cards that are stored, in order.
        children: Vec<GameNode>,
    },
    /// A player acts.
    Player {
        bets: [i32; 2],
        /// How many cards the board has.
        board_len: usize,
        player: u8,
        /// How much of each of the player's hands gets here.
        weights: Weights,
        actions: Vec<Action>,
        /// What the engine has found; not needed where the node is stored without a body.
        solution: Option<Solution>,
        /// The nodes after the actions.
        children: Vec<GameNode>,
    },
}

/// What does not change during an export.
pub struct Setting {
    pub header: HeaderModel,
    pub store_river: bool,
    pub prune_epsilon: Double,
    pub river_prune_epsilon: Double,
    pub river_ev: bool,
    pub compress: bool,
    pub oop: Seq<u16>,
    pub ip: Seq<u16>,
    /// What the players' hands weigh at the root.
    pub root: Seq<Double>,
    pub flop: Seq<u8>,
    pub iso: IsomorphismModel,
}

/// What an export has come to.
pub struct Progress {
    /// The blobs by the places of their keys.
    pub blobs: Seq<Option<BlobModel>>,
    pub node_count: int,
    pub pruned_nodes: int,
    pub river_player_nodes: int,
    /// The turn cards, ours, that have blobs of their own.
    pub turn_cards: Seq<bool>,
    /// For turn cards, ours, that have none, the card whose blob stands for theirs.
    pub turn_isomorphism: Seq<Option<u8>>,
    /// Whether the engine has always folded the same cards.
    pub trusted: bool,
}

/// Whether a card is in a set of bits.
pub open spec fn holds(set: u64, card: u8) -> bool {
    card < 64 && set & (1u64 << card) != 0
}

/// The cards below `n` in a set of bits, in order.
pub open spec fn cards_in(set: u64, n: int) -> Seq<u8>
    decreases n,
{
    if n <= 0 {
        Seq::empty()
    } else if holds(set, (n - 1) as u8) {
        cards_in(set, n - 1).push((n - 1) as u8)
    } else {
        cards_in(set, n - 1)
    }
}

/// The cards among the first `k` actions that are in a set of bits.
pub open spec fn offered(actions: Seq<Action>, set: u64, k: int) -> Seq<u8>
    decreases k,
{
    if k <= 0 {
        Seq::empty()
    } else {
        let before = offered(actions, set, k - 1);
        match actions[k - 1] {
            Action::Chance(card) => if holds(set, card) {
                before.push(card)
            } else {
                before
            },
            _ => before,
        }
    }
}

/// The card whose subtree stands for a card's, given the turn card if it is dealt.
pub open spec fn stand_in(iso: IsomorphismModel, turn: Option<u8>, card: u8) -> u8 {
    match turn {
        None => iso.turn_card(card as int) as u8,
        Some(t) => iso.river_card(t, card as int) as u8,
    }
}

/// The cards below `n` in a set of bits that stand for themselves, in order.
pub open spec fn own_cards(iso: IsomorphismModel, turn: Option<u8>, set: u64, n: int) -> Seq<u8>
    decreases n,
{
    if n <= 0 {
        Seq::empty()
    } else {
        let before = own_cards(iso, turn, set, n - 1);
        let card = (n - 1) as u8;
        if holds(set, card) && stand_in(iso, turn, card) == card {
            before.push(card)
        } else {
            before
        }
    }
}

/// Whether the engine has solved the cards that stand for themselves, and no others.
pub open spec fn agreed(iso: IsomorphismModel, turn: Option<u8>, set: u64, actions: Seq<Action>) -> bool {
    own_cards(iso, turn, set, 52).to_multiset() == offered(
        actions,
        set,
        actions.len() as int,
    ).to_multiset()
}

/// The cards whose subtrees are stored: those that stand for themselves where cards are folded,
/// else all.
pub open spec fn stored_cards(iso: IsomorphismModel, turn: Option<u8>, set: u64, folds: bool) -> Seq<u8> {
    if folds {
        own_cards(iso, turn, set, 52)
    } else {
        cards_in(set, 52)
    }
}

/// The place of a card in a list, from `k` on.
pub open spec fn index_of(list: Seq<u8>, card: u8, k: int) -> Option<int>
    decreases list.len() - k,
{
    if k < 0 || k >= list.len() {
        None
    } else if list[k] == card {
        Some(k)
    } else {
        index_of(list, card, k + 1)
    }
}

/// The blob that a card leads to.
pub open spec fn card_key(turn: Option<u8>, card: u8) -> BlobKey {
    match turn {
        None => BlobKey::Turn(cards::swapped(card as int) as u8),
        Some(t) => BlobKey::River(
            cards::swapped(t as int) as u8,
            cards::swapped(card as int) as u8,
        ),
    }
}

/// The turn card of a board, if it is dealt.
pub open spec fn turn_of(board: Seq<u8>) -> Option<u8> {
    if board.len() == 3 {
        None
    } else {
        Some(board[3])
    }
}

/// How much of a player's range gets to a node.
pub open spec fn reach_of(root: Double, weights: Seq<Single>) -> Double {
    signed::quotient(sums::sum(weights), root)
}

/// What both players have put in, in big blinds.
pub open spec fn invested(bets: Seq<i32>) -> (Single, Single) {
    (arith::big_blinds_of(bets[0] as int), arith::big_blinds_of(bets[1] as int))
}

/// The bit pattern of 1 in binary32.
pub const ONE: u32 = 0x3F80_0000;

/// A node that is not filled in yet.
pub open spec fn empty_node(id: u32) -> NodeModel {
    NodeModel {
        id,
        kind: KIND_TERMINAL,
        player: PLAYER_NONE,
        flags: 0,
        actions: Seq::empty(),
        children: Seq::empty(),
        invest: (Single { bits: 0 }, Single { bits: 0 }),
        strategy: Seq::empty(),
        ev: Seq::empty(),
        ev_scale: Single { bits: ONE },
    }
}

/// A blob without nodes: later streets have the cards of their keys on the board.
pub open spec fn fresh_blob(set: Setting, key: BlobKey) -> BlobModel {
    let header = match key {
        BlobKey::Start => set.header,
        BlobKey::Turn(c) => HeaderModel { board: set.flop.push(c), street: 1, ..set.header },
        BlobKey::River(t, r) => HeaderModel {
            board: set.flop.push(t).push(r),
            street: 2,
            ..set.header
        },
    };
    BlobModel { header, oop: set.oop, ip: set.ip, nodes: Seq::empty() }
}

/// The blob of a key, which is made where there is none.
pub open spec fn blob_of(set: Setting, p: Progress, key: BlobKey) -> BlobModel {
    match p.blobs[key.place()] {
        Some(b) => b,
        None => fresh_blob(set, key),
    }
}

/// Makes room for a node in the blob of a key. No node has a number that a child slot could not
/// tell from its special values.
pub open spec fn reserved(set: Setting, p: Progress, key: BlobKey) -> Result<(Progress, u32), Error> {
    let b = blob_of(set, p, key);
    let index = b.nodes.len();
    if index >= CHILD_NOT_STORED || p.node_count >= u64::MAX {
        Err(Error::TooLarge)
    } else {
        Ok(
            (
                Progress {
                    blobs: p.blobs.update(
                        key.place(),
                        Some(BlobModel { nodes: b.nodes.push(empty_node(index as u32)), ..b }),
                    ),
                    node_count: p.node_count + 1,
                    ..p
                },
                index as u32,
            ),
        )
    }
}

/// Fills in a node.
pub open spec fn filled(p: Progress, key: BlobKey, index: u32, node: NodeModel) -> Progress {
    let b = p.blobs[key.place()]->0;
    Progress {
        blobs: p.blobs.update(
            key.place(),
            Some(BlobModel { nodes: b.nodes.update(index as int, node), ..b }),
        ),
        ..p
    }
}

/// The child slots of a node where a card is dealt, one for each card of ours.
pub open spec fn card_slots(
    iso: IsomorphismModel,
    turn: Option<u8>,
    set: u64,
    stored: bool,
    list: Seq<u8>,
    indices: Seq<u32>,
    folds: bool,
) -> Seq<u32> {
    Seq::new(
        52,
        |k: int|
            {
                let card = cards::swapped(k) as u8;
                let rep = if folds {
                    stand_in(iso, turn, card)
                } else {
                    card
                };
                if !holds(set, card) {
                    CHILD_IMPOSSIBLE
                } else if !stored {
                    CHILD_NOT_STORED
                } else {
                    match index_of(list, rep, 0) {
                        None => CHILD_NOT_STORED,
                        Some(i) => indices[i],
                    }
                }
            },
    )
}

/// Notes which turn cards have blobs of their own and which card stands for each other one.
pub open spec fn noted(p: Progress, iso: IsomorphismModel, set: u64, folds: bool) -> Progress {
    Progress {
        turn_cards: Seq::new(
            52,
            |k: int|
                {
                    let card = cards::swapped(k) as u8;
                    p.turn_cards[k] || (holds(set, card) && (!folds || stand_in(iso, None, card)
                        == card))
                },
        ),
        turn_isomorphism: Seq::new(
            52,
            |k: int|
                {
                    let card = cards::swapped(k) as u8;
                    if holds(set, card) && folds && stand_in(iso, None, card) != card {
                        Some(cards::swapped(stand_in(iso, None, card) as int) as u8)
                    } else {
                        p.turn_isomorphism[k]
                    }
                },
        ),
        ..p
    }
}

/// The export of a node and all below it: what it comes to, and the node's number in the blob of
/// its key.
pub open spec fn exported(set: Setting, p: Progress, key: BlobKey, node: GameNode) -> Result<
    (Progress, u32),
    Error,
>
    decreases node, 0int,
{
    match reserved(set, p, key) {
        Err(e) => Err(e),
        Ok((p1, index)) => match node {
            GameNode::Terminal { bets } => Ok(
                (
                    filled(
                        p1,
                        key,
                        index,
                        NodeModel { invest: invested(bets@), ..empty_node(index) },
                    ),
                    index,
                ),
            ),
            GameNode::Chance { bets, board, possible, actions, children } => {
                let turn = turn_of(board@);
                let folds = p1.trusted && agreed(set.iso, turn, possible, actions@);
                let list = stored_cards(set.iso, turn, possible, folds);
                let stored = turn is None || set.store_river;
                let p2 = Progress { trusted: folds, ..p1 };
                if board@.len() < 3 {
                    Err(Error::BoardLength(board@.len() as usize))
                } else if turn is Some && turn->0 >= 52 {
                    Err(Error::CardOutOfRange(turn->0))
                } else if stored && children@.len() != list.len() {
                    Err(Error::MissingSubtree)
                } else {
                    let keys = Seq::new(list.len(), |i: int| card_key(turn, list[i]));
                    let count = if stored {
                        list.len() as int
                    } else {
                        0
                    };
                    match exported_list(set, p2, keys, children@, count) {
                        Err(e) => Err(e),
                        Ok((p3, indices)) => {
                            let slots = card_slots(
                                set.iso,
                                turn,
                                possible,
                                stored,
                                list,
                                indices,
                                folds,
                            );
                            let p4 = if turn is None {
                                noted(p3, set.iso, possible, folds)
                            } else {
                                p3
                            };
                            Ok(
                                (
                                    filled(
                                        p4,
                                        key,
                                        index,
                                        NodeModel {
                                            kind: KIND_CHANCE,
                                            children: slots,
                                            invest: invested(bets@),
                                            ..empty_node(index)
                                        },
                                    ),
                                    index,
                                ),
                            )
                        },
                    }
                }
            },
            GameNode::Player { bets, board_len, player, weights, actions, solution, children } => {
                let river = board_len == 5;
                let epsilon = if river {
                    set.river_prune_epsilon
                } else {
                    set.prune_epsilon
                };
                let n = actions@.len();
                let shared = NodeModel {
                    kind: KIND_PLAYER,
                    player,
                    actions: Seq::new(n, |i: int| blob_action(actions@[i])),
                    invest: invested(bets@),
                    ..empty_node(index)
                };
                if player > 1 {
                    Err(Error::UnknownPlayer(player))
                } else if reach_of(set.root[player as int], weights@).below(epsilon) {
                    if p1.pruned_nodes >= u64::MAX {
                        Err(Error::TooLarge)
                    } else {
                        Ok(
                            (
                                filled(
                                    Progress { pruned_nodes: p1.pruned_nodes + 1, ..p1 },
                                    key,
                                    index,
                                    NodeModel {
                                        flags: FLAG_PRUNED,
                                        children: Seq::new(n, |i: int| CHILD_NOT_STORED),
                                        ..shared
                                    },
                                ),
                                index,
                            ),
                        )
                    }
                } else {
                    let hands = blob::hands_of(player, set.oop.len(), set.ip.len());
                    let with_ev = !river || set.river_ev;
                    match solution {
                        None => Err(Error::MissingStrategy),
                        Some(b) => if b.actions() != n || b.hands() != hands
                            || b.frequencies().len() != n * hands {
                            Err(Error::StrategyLength(b.frequencies().len() as usize))
                        } else if with_ev && (!b.has_ev() || b.chips().len() != n * hands) {
                            Err(Error::EvLength(b.chips().len() as usize))
                        } else if children@.len() != n {
                            Err(Error::MissingSubtree)
                        } else if river && p1.river_player_nodes >= u64::MAX {
                            Err(Error::TooLarge)
                        } else {
                            let p2 = Progress {
                                river_player_nodes: p1.river_player_nodes + (if river {
                                    1int
                                } else {
                                    0int
                                }),
                                ..p1
                            };
                            let keys = Seq::new(n, |i: int| key);
                            match exported_list(set, p2, keys, children@, n as int) {
                                Err(e) => Err(e),
                                Ok((p3, indices)) => Ok(
                                    (
                                        filled(
                                            p3,
                                            key,
                                            index,
                                            NodeModel {
                                                flags: if with_ev {
                                                    FLAG_HAS_EV
                                                } else {
                                                    0
                                                },
                                                children: indices,
                                                strategy: strategy::quantized(
                                                    b.frequencies(),
                                                    n as int,
                                                    hands as int,
                                                ),
                                                ev: if with_ev {
                                                    ev::encoded(solution::all_in_big_blinds(b.chips()))
                                                } else {
                                                    Seq::empty()
                                                },
                                                ev_scale: if with_ev {
                                                    ev::scale_of(solution::all_in_big_blinds(b.chips()))
                                                } else {
                                                    Single { bits: 0 }
                                                },
                                                ..shared
                                            },
                                        ),
                                        index,
                                    ),
                                ),
                            }
                        },
                    }
                }
            },
        },
    }
}

/// The export of the first `k` of some nodes, each in the blob of its key, and the nodes' numbers.
pub open spec fn exported_list(
    set: Setting,
    p: Progress,
    keys: Seq<BlobKey>,
    nodes: Seq<GameNode>,
    k: int,
) -> Result<(Progress, Seq<u32>), Error>
    decreases nodes, k,
{
    if k <= 0 || k > nodes.len() {
        Ok((p, Seq::empty()))
    } else {
        match exported_list(set, p, keys, nodes, k - 1) {
            Err(e) => Err(e),
            Ok((before, indices)) => match exported(set, before, keys[k - 1], nodes[k - 1]) {
                Err(e) => Err(e),
                Ok((after, index)) => Ok((after, indices.push(index))),
            },
        }
    }
}

/// How a game is to be exported.
#[derive(Debug, Clone, PartialEq, Eq)]
pub struct ExportOptions {
    pub header: BlobHeader,
    pub store_river: bool,
    /// Player nodes that are reached less often are stored without a body.
    pub prune_epsilon: Double,
    /// The same for river nodes.
    pub river_prune_epsilon: Double,
    /// Whether river nodes have EVs.
    pub river_ev: bool,
    pub compress: bool,
    pub out_dir: String,
}

impl ExportOptions {
    /// Options in which river nodes are treated like all others.
    pub fn new(
        header: BlobHeader,
        store_river: bool,
        prune_epsilon: Double,
        compress: bool,
        out_dir: String,
    ) -> (r: ExportOptions)
        ensures
            r.header == header,
            r.store_river == store_river,
            r.prune_epsilon == prune_epsilon,
            r.river_prune_epsilon == prune_epsilon,
            r.river_ev == DEFAULT_RIVER_EV,
            r.compress == compress,
            r.out_dir == out_dir,
    {
        ExportOptions {
            header,
            store_river,
            prune_epsilon,
            river_prune_epsilon: prune_epsilon,
            river_ev: DEFAULT_RIVER_EV,
            compress,
            out_dir,
        }
    }
}

/// An export under way.
pub struct Exporter {
    options: ExportOptions,
    iso: Isomorphism,
    hands: [Vec<u16>; 2],
    root: [Double; 2],
    flop: Vec<u8>,
    blobs: Vec<Option<Blob>>,
    node_count: u64,
    pruned_nodes: u64,
    river_player_nodes: u64,
    turn_cards: Vec<bool>,
    turn_isomorphism: Vec<Option<u8>>,
    iso_trusted: bool,
}

/// The contents of a list of blobs.
pub open spec fn blob_models(blobs: Seq<Option<Blob>>) -> Seq<Option<BlobModel>> {
    Seq::new(
        blobs.len(),
        |i: int|
            match blobs[i] {
                Some(b) => Some(b@),
                None => None,
            },
    )
}

pub(crate) fn copy_u8(v: &Vec<u8>) -> (r: Vec<u8>)
    ensures
        r@ == v@,
{
    let mut out: Vec<u8> = Vec::new();
    for i in 0..v.len()
        invariant
            out@ == v@.take(i as int),
    {
        out.push(v[i]);
        assert(v@.take(i + 1) =~= v@.take(i as int).push(v@[i as int]));
    }
    assert(v@.take(v@.len() as int) =~= v@);
    out
}

fn copy_u16(v: &Vec<u16>) -> (r: Vec<u16>)
    ensures
        r@ == v@,
{
    let mut out: Vec<u16> = Vec::new();
    for i in 0..v.len()
        invariant
            out@ == v@.take(i as int),
    {
        out.push(v[i]);
        assert(v@.take(i + 1) =~= v@.take(i as int).push(v@[i as int]));
    }
    assert(v@.take(v@.len() as int) =~= v@);
    out
}

fn copy_header(h: &BlobHeader) -> (r: BlobHeader)
    ensures
        r@ == h@,
{
    BlobHeader {
        scenario_id: h.scenario_id,
        template_id: h.template_id,
        solver_version: h.solver_version,
        board: copy_u8(&h.board),
        street: h.street,
        starting_pot: h.starting_pot,
        effective_stack: h.effective_stack,
        rake_percent: h.rake_percent,
        rake_cap: h.rake_cap,
        exploitability_pct: h.exploitability_pct,
        iterations: h.iterations,
    }
}

fn new_node(id: u32) -> (r: BlobNode)
    ensures
        r@ == empty_node(id),
{
    BlobNode {
        id,
        kind: KIND_TERMINAL,
        player: PLAYER_NONE,
        flags: 0,
        actions: Vec::new(),
        children: Vec::new(),
        invest: [Single { bits: 0 }, Single { bits: 0 }],
        strategy: Vec::new(),
        ev: Vec::new(),
        ev_scale: Single { bits: ONE },
    }
}

fn place(key: BlobKey) -> (r: usize)
    requires
        key.proper(),
    ensures
        r == key.place(),
        r < NUM_KEYS,
{
    match key {
        BlobKey::Start => 0,
        BlobKey::Turn(c) => 1 + c as usize,
        BlobKey::River(t, r) => 53 + 52 * (t as usize) + r as usize,
    }
}

fn invest(bets: &[i32; 2]) -> (r: [Single; 2])
    ensures
        (r@[0], r@[1]) == invested(bets@),
{
    [arith::big_blinds(bets[0]), arith::big_blinds(bets[1])]
}

fn is_held(set: u64, card: u8) -> (r: bool)
    ensures
        r == holds(set, card),
{
    card < 64 && set & (1u64 << card) != 0
}

impl Exporter {
    pub closed spec fn setting(self) -> Setting {
        Setting {
            header: self.options.header@,
            store_river: self.options.store_river,
            prune_epsilon: self.options.prune_epsilon,
            river_prune_epsilon: self.options.river_prune_epsilon,
            river_ev: self.options.river_ev,
            compress: self.options.compress,
            oop: self.hands@[0]@,
            ip: self.hands@[1]@,
            root: self.root@,
            flop: self.flop@,
            iso: self.iso@,
        }
    }

    pub closed spec fn progress(self) -> Progress {
        Progress {
            blobs: blob_models(self.blobs@),
            node_count: self.node_count as int,
            pruned_nodes: self.pruned_nodes as int,
            river_player_nodes: self.river_player_nodes as int,
            turn_cards: self.turn_cards@,
            turn_isomorphism: self.turn_isomorphism@,
            trusted: self.iso_trusted,
        }
    }

    /// There is a place for every key and every card, and what stands for a turn card is a card.
    spec fn shaped(self) -> bool {
        &&& forall|i: int|
            0 <= i < self.turn_isomorphism@.len() && (#[trigger] self.turn_isomorphism@[i]) is Some
                ==> self.turn_isomorphism@[i]->0 < 52
        &&& self.blobs@.len() == NUM_KEYS
        &&& self.turn_cards@.len() == 52
        &&& self.turn_isomorphism@.len() == 52
    }

    /// There is a place for every key and every card, all blobs are sound and their nodes counted.
    pub closed spec fn well_formed(self) -> bool {
        self.shaped() && export_laws::sound(self.setting(), self.progress())
    }

    /// All blobs of an export are sound and their nodes counted, whatever was exported, and whether
    /// that was possible or not.
    pub proof fn law_exporters_are_sound(&self)
        requires
            self.well_formed(),
        ensures
            export_laws::sound(self.setting(), self.progress()),
    {
    }

    fn fresh(&self, key: BlobKey) -> (r: Blob)
        ensures
            r@ == fresh_blob(self.setting(), key),
    {
        let mut header: BlobHeader = copy_header(&self.options.header);
        match key {
            BlobKey::Start => {},
            BlobKey::Turn(c) => {
                let mut board: Vec<u8> = copy_u8(&self.flop);
                board.push(c);
                header.board = board;
                header.street = 1;
            },
            BlobKey::River(t, r) => {
                let mut board: Vec<u8> = copy_u8(&self.flop);
                board.push(t);
                board.push(r);
                header.board = board;
                header.street = 2;
            },
        }
        let blob: Blob = Blob::new(header, [copy_u16(&self.hands[0]), copy_u16(&self.hands[1])]);
        assert(blob@.nodes =~= Seq::empty());
        blob
    }

    /// Makes room for a node in the blob of a key.
    fn reserve(&mut self, key: BlobKey) -> (r: Result<u32, Error>)
        requires
            old(self).shaped(),
            key.proper(),
        ensures
            final(self).shaped(),
            final(self).setting() == old(self).setting(),
            match reserved(old(self).setting(), old(self).progress(), key) {
                Err(e) => r == Err::<u32, Error>(e) && final(self).progress() == old(self).progress(),
                Ok((p, index)) => r == Ok::<u32, Error>(index) && final(self).progress() == p,
            },
    {
        if self.node_count == u64::MAX {
            return Err(Error::TooLarge);
        }
        let at: usize = place(key);
        let mut blob: Blob = match self.blobs[at].take() {
            Some(blob) => blob,
            None => self.fresh(key),
        };
        let ghost b = blob_of(old(self).setting(), old(self).progress(), key);
        assert(blob@ == b);
        let index: usize = blob.nodes.len();
        if index >= CHILD_NOT_STORED as usize {
            self.blobs[at] = Some(blob);
            assert(self.progress().blobs =~= old(self).progress().blobs);
            return Err(Error::TooLarge);
        }
        let ghost before = blob.nodes@;
        blob.nodes.push(new_node(index as u32));
        assert(blob::node_models(blob.nodes@) =~= blob::node_models(before).push(
            empty_node(index as u32),
        ));
        self.blobs[at] = Some(blob);
        self.node_count = self.node_count + 1;
        proof {
            let p = reserved(old(self).setting(), old(self).progress(), key)->Ok_0.0;
            assert(self.progress().blobs =~= p.blobs);
        }
        Ok(index as u32)
    }

    /// Fills in a node.
    fn fill(&mut self, key: BlobKey, index: u32, node: BlobNode)
        requires
            old(self).shaped(),
            key.proper(),
            old(self).progress().blobs[key.place()] is Some,
            index < old(self).progress().blobs[key.place()]->0.nodes.len(),
        ensures
            final(self).shaped(),
            final(self).setting() == old(self).setting(),
            final(self).progress() == filled(old(self).progress(), key, index, node@),
    {
        let at: usize = place(key);
        let ghost m = node@;
        if let Some(mut blob) = self.blobs[at].take() {
            let ghost before = blob.nodes@;
            blob.nodes[index as usize] = node;
            assert(blob::node_models(blob.nodes@) =~= blob::node_models(before).update(
                index as int,
                m,
            ));
            self.blobs[at] = Some(blob);
        }
        proof {
            assert(self.progress().blobs =~= filled(old(self).progress(), key, index, m).blobs);
        }
    }
}

/// Blobs and their nodes are only added to.
pub open spec fn grown(p: Progress, q: Progress) -> bool {
    &&& p.blobs.len() == q.blobs.len()
    &&& forall|i: int|
        0 <= i < p.blobs.len() && (#[trigger] p.blobs[i]) is Some ==> q.blobs[i] is Some
            && p.blobs[i]->0.nodes.len() <= q.blobs[i]->0.nodes.len()
}

pub proof fn lemma_grown(p: Progress, q: Progress, r: Progress)
    requires
        grown(p, q),
        grown(q, r),
    ensures
        grown(p, r),
{
    assert forall|i: int| 0 <= i < p.blobs.len() && (#[trigger] p.blobs[i]) is Some implies r.blobs[i] is Some
        && p.blobs[i]->0.nodes.len() <= r.blobs[i]->0.nodes.len() by {
        assert(q.blobs[i] is Some);
    }
}

/// The cards of a set of bits that stand for themselves are among the 52.
proof fn lemma_own_cards(iso: IsomorphismModel, turn: Option<u8>, set: u64, n: int)
    requires
        0 <= n <= 52,
    ensures
        forall|i: int|
            0 <= i < own_cards(iso, turn, set, n).len() ==> {
                let c = #[trigger] own_cards(iso, turn, set, n)[i];
                c < n && holds(set, c) && stand_in(iso, turn, c) == c
            },
        own_cards(iso, turn, set, n).len() <= n,
    decreases n,
{
    if n > 0 {
        lemma_own_cards(iso, turn, set, n - 1);
    }
}

proof fn lemma_cards_in(set: u64, n: int)
    requires
        0 <= n <= 52,
    ensures
        forall|i: int|
            0 <= i < cards_in(set, n).len() ==> {
                let c = #[trigger] cards_in(set, n)[i];
                c < n && holds(set, c)
            },
        cards_in(set, n).len() <= n,
    decreases n,
{
    if n > 0 {
        lemma_cards_in(set, n - 1);
    }
}

pub proof fn lemma_stored_cards(iso: IsomorphismModel, turn: Option<u8>, set: u64, folds: bool)
    ensures
        forall|i: int|
            0 <= i < stored_cards(iso, turn, set, folds).len() ==> (#[trigger] stored_cards(
                iso,
                turn,
                set,
                folds,
            )[i]) < 52,
        stored_cards(iso, turn, set, folds).len() <= 52,
{
    lemma_own_cards(iso, turn, set, 52);
    lemma_cards_in(set, 52);
}

pub proof fn lemma_card_key(turn: Option<u8>, card: u8)
    requires
        card < 52,
        turn is Some ==> turn->0 < 52,
    ensures
        card_key(turn, card).proper(),
{
    cards::law_swap_is_its_own_inverse(card as int);
    if turn is Some {
        cards::law_swap_is_its_own_inverse(turn->0 as int);
    }
}

pub proof fn lemma_reserved(set: Setting, p: Progress, key: BlobKey)
    requires
        p.blobs.len() == NUM_KEYS,
        key.proper(),
        reserved(set, p, key) is Ok,
    ensures
        ({
            let (q, index) = reserved(set, p, key)->Ok_0;
            &&& grown(p, q)
            &&& q.blobs[key.place()] is Some
            &&& index < q.blobs[key.place()]->0.nodes.len()
        }),
{
    let (q, index) = reserved(set, p, key)->Ok_0;
    assert(0 <= key.place() < NUM_KEYS);
}

proof fn lemma_filled(p: Progress, key: BlobKey, index: u32, node: NodeModel)
    requires
        p.blobs.len() == NUM_KEYS,
        key.proper(),
        p.blobs[key.place()] is Some,
        index < p.blobs[key.place()]->0.nodes.len(),
    ensures
        grown(p, filled(p, key, index, node)),
{
    assert(0 <= key.place() < NUM_KEYS);
}

/// An export only adds to the blobs.
pub proof fn lemma_exported_grows(set: Setting, p: Progress, key: BlobKey, node: GameNode)
    requires
        p.blobs.len() == NUM_KEYS,
        key.proper(),
        exported(set, p, key, node) is Ok,
    ensures
        grown(p, exported(set, p, key, node)->Ok_0.0),
    decreases node, 0int,
{
    lemma_reserved(set, p, key);
    let (p1, index) = reserved(set, p, key)->Ok_0;
    match node {
        GameNode::Terminal { bets } => {
            let model = NodeModel { invest: invested(bets@), ..empty_node(index) };
            lemma_filled(p1, key, index, model);
            lemma_grown(p, p1, filled(p1, key, index, model));
        },
        GameNode::Chance { bets, board, possible, actions, children } => {
            let turn = turn_of(board@);
            let folds = p1.trusted && agreed(set.iso, turn, possible, actions@);
            let list = stored_cards(set.iso, turn, possible, folds);
            let stored = turn is None || set.store_river;
            let p2 = Progress { trusted: folds, ..p1 };
            let keys = Seq::new(list.len(), |i: int| card_key(turn, list[i]));
            let count = if stored {
                list.len() as int
            } else {
                0
            };
            lemma_stored_cards(set.iso, turn, possible, folds);
            assert forall|i: int| 0 <= i < keys.len() implies (#[trigger] keys[i]).proper() by {
                assert(list[i] < 52);
                lemma_card_key(turn, list[i]);
            }
            lemma_exported_list_grows(set, p2, keys, children@, count);
            let (p3, indices) = exported_list(set, p2, keys, children@, count)->Ok_0;
            let p4 = if turn is None {
                noted(p3, set.iso, possible, folds)
            } else {
                p3
            };
            let slots = card_slots(set.iso, turn, possible, stored, list, indices, folds);
            let model = NodeModel {
                kind: KIND_CHANCE,
                children: slots,
                invest: invested(bets@),
                ..empty_node(index)
            };
            lemma_filled(p4, key, index, model);
            lemma_grown(p, p1, p3);
            lemma_grown(p, p3, filled(p4, key, index, model));
        },
        GameNode::Player { bets, board_len, player, weights, actions, solution, children } => {
            let river = board_len == 5;
            let epsilon = if river {
                set.river_prune_epsilon
            } else {
                set.prune_epsilon
            };
            let q = exported(set, p, key, node)->Ok_0.0;
            if reach_of(set.root[player as int], weights@).below(epsilon) {
                let model = q.blobs[key.place()]->0.nodes[index as int];
                let p2 = Progress { pruned_nodes: p1.pruned_nodes + 1, ..p1 };
                lemma_filled(p2, key, index, model);
                assert(q.blobs =~= filled(p2, key, index, model).blobs);
                lemma_grown(p, p1, q);
            } else {
                let n = actions@.len();
                let p2 = Progress {
                    river_player_nodes: p1.river_player_nodes + (if river {
                        1int
                    } else {
                        0int
                    }),
                    ..p1
                };
                let keys = Seq::new(n, |i: int| key);
                lemma_exported_list_grows(set, p2, keys, children@, n as int);
                let (p3, indices) = exported_list(set, p2, keys, children@, n as int)->Ok_0;
                let model = q.blobs[key.place()]->0.nodes[index as int];
                lemma_grown(p, p1, p3);
                lemma_filled(p3, key, index, model);
                assert(q.blobs =~= filled(p3, key, index, model).blobs);
                lemma_grown(p, p3, q);
            }
        },
    }
}

pub proof fn lemma_exported_list_grows(set: Setting, p: Progress, keys: Seq<BlobKey>, nodes: Seq<GameNode>, k: int)
    requires
        p.blobs.len() == NUM_KEYS,
        k <= nodes.len(),
        k <= keys.len(),
        forall|i: int| 0 <= i < keys.len() ==> (#[trigger] keys[i]).proper(),
        exported_list(set, p, keys, nodes, k) is Ok,
    ensures
        grown(p, exported_list(set, p, keys, nodes, k)->Ok_0.0),
        k >= 0 ==> exported_list(set, p, keys, nodes, k)->Ok_0.1.len() == k,
    decreases nodes, k,
{
    if k > 0 {
        lemma_exported_list_grows(set, p, keys, nodes, k - 1);
        let q = exported_list(set, p, keys, nodes, k - 1)->Ok_0.0;
        assert(keys[k - 1].proper());
        lemma_exported_grows(set, q, keys[k - 1], nodes[k - 1]);
        lemma_grown(p, q, exported(set, q, keys[k - 1], nodes[k - 1])->Ok_0.0);
    }
}

fn blob_actions(actions: &Vec<Action>) -> (r: Vec<BlobAction>)
    ensures
        r@ == Seq::new(actions@.len(), |i: int| blob_action(actions@[i])),
{
    let mut out: Vec<BlobAction> = Vec::new();
    for i in 0..actions.len()
        invariant
            out@.len() == i,
            forall|j: int| 0 <= j < i ==> #[trigger] out@[j] == blob_action(actions@[j]),
    {
        out.push(action_to_blob(&actions[i]));
    }
    assert(out@ =~= Seq::new(actions@.len(), |i: int| blob_action(actions@[i])));
    out
}

fn cards_of(set: u64) -> (r: Vec<u8>)
    ensures
        r@ == cards_in(set, 52),
{
    let mut out: Vec<u8> = Vec::new();
    for card in 0..52u8
        invariant
            out@ == cards_in(set, card as int),
    {
        if is_held(set, card) {
            out.push(card);
        }
    }
    out
}

fn offered_cards(actions: &Vec<Action>, set: u64) -> (r: Vec<u8>)
    ensures
        r@ == offered(actions@, set, actions@.len() as int),
{
    let mut out: Vec<u8> = Vec::new();
    for i in 0..actions.len()
        invariant
            out@ == offered(actions@, set, i as int),
    {
        if let Action::Chance(card) = actions[i] {
            if is_held(set, card) {
                out.push(card);
            }
        }
    }
    out
}

fn find_card(list: &Vec<u8>, card: u8) -> (r: Option<usize>)
    ensures
        match r {
            None => index_of(list@, card, 0) is None,
            Some(i) => i < list@.len() && index_of(list@, card, 0) == Some(i as int),
        },
{
    for i in 0..list.len()
        invariant
            index_of(list@, card, 0) == index_of(list@, card, i as int),
    {
        if list[i] == card {
            return Some(i);
        }
    }
    None
}

impl Exporter {
    /// The card whose subtree stands for a card's.
    fn representative(&self, card: u8, turn: Option<u8>) -> (r: u8)
        ensures
            r == stand_in(self.setting().iso, turn, card),
    {
        match turn {
            None => self.iso.turn_representative(card),
            Some(turn) => self.iso.river_representative(turn, card),
        }
    }

    fn own_cards_of(&self, turn: Option<u8>, set: u64) -> (r: Vec<u8>)
        ensures
            r@ == own_cards(self.setting().iso, turn, set, 52),
    {
        let mut out: Vec<u8> = Vec::new();
        for card in 0..52u8
            invariant
                out@ == own_cards(self.setting().iso, turn, set, card as int),
        {
            if is_held(set, card) && self.representative(card, turn) == card {
                out.push(card);
            }
        }
        out
    }

    fn slots(
        &self,
        turn: Option<u8>,
        set: u64,
        stored: bool,
        list: &Vec<u8>,
        indices: &Vec<u32>,
        folds: bool,
    ) -> (r: Vec<u32>)
        requires
            stored ==> indices@.len() == list@.len(),
        ensures
            r@ == card_slots(
                self.setting().iso,
                turn,
                set,
                stored,
                list@,
                indices@,
                folds,
            ),
    {
        let mut out: Vec<u32> = Vec::new();
        let ghost goal = card_slots(
            self.setting().iso,
            turn,
            set,
            stored,
            list@,
            indices@,
            folds,
        );
        for k in 0..52u8
            invariant
                stored ==> indices@.len() == list@.len(),
                goal == card_slots(
                    self.setting().iso,
                    turn,
                    set,
                    stored,
                    list@,
                    indices@,
                    folds,
                ),
                out@.len() == k,
                forall|j: int| 0 <= j < k ==> #[trigger] out@[j] == goal[j],
        {
            let card: u8 = cards::to_lib(k);
            let slot: u32 = if !is_held(set, card) {
                CHILD_IMPOSSIBLE
            } else if !stored {
                CHILD_NOT_STORED
            } else {
                let rep: u8 = if folds {
                    self.representative(card, turn)
                } else {
                    card
                };
                match find_card(list, rep) {
                    None => CHILD_NOT_STORED,
                    Some(i) => indices[i],
                }
            };
            out.push(slot);
        }
        assert(out@ =~= goal);
        out
    }

    fn note(&mut self, set: u64, folds: bool)
        requires
            old(self).shaped(),
        ensures
            final(self).shaped(),
            final(self).setting() == old(self).setting(),
            final(self).progress() == noted(old(self).progress(), old(self).setting().iso, set, folds),
    {
        let ghost goal = noted(old(self).progress(), old(self).setting().iso, set, folds);
        let ghost before = self.progress();
        for k in 0..52u8
            invariant
                self.shaped(),
                self.setting() == old(self).setting(),
                before == old(self).progress(),
                goal == noted(before, old(self).setting().iso, set, folds),
                self.progress().trusted == before.trusted,
                self.progress().blobs == before.blobs,
                self.progress().node_count == before.node_count,
                self.progress().pruned_nodes == before.pruned_nodes,
                self.progress().river_player_nodes == before.river_player_nodes,
                forall|j: int| 0 <= j < k ==> #[trigger] self.turn_cards@[j] == goal.turn_cards[j],
                forall|j: int|
                    k <= j < 52 ==> #[trigger] self.turn_cards@[j] == before.turn_cards[j],
                forall|j: int|
                    0 <= j < k ==> #[trigger] self.turn_isomorphism@[j] == goal.turn_isomorphism[j],
                forall|j: int|
                    k <= j < 52 ==> #[trigger] self.turn_isomorphism@[j]
                        == before.turn_isomorphism[j],
        {
            let card: u8 = cards::to_lib(k);
            if is_held(set, card) {
                let rep: u8 = if folds {
                    self.representative(card, None)
                } else {
                    card
                };
                proof {
                    self.iso.lemma_well_formed();
                    cards::law_swap_is_its_own_inverse(k as int);
                    tree::law_turn_representative(self.iso@, card as int);
                    cards::law_swap_is_its_own_inverse(rep as int);
                }
                if rep == card {
                    self.turn_cards[k as usize] = true;
                } else {
                    self.turn_isomorphism[k as usize] = Some(cards::from_lib(rep));
                }
            }
        }
        assert(self.progress().turn_cards =~= goal.turn_cards);
        assert(self.progress().turn_isomorphism =~= goal.turn_isomorphism);
    }
}

impl Exporter {
    /// The cards whose subtrees are stored at a node where a card is dealt: the children that the
    /// node needs, in order; and whether cards are folded from here on, given whether they were
    /// folded up to here.
    pub fn branches(&self, board: &Vec<u8>, possible: u64, actions: &Vec<Action>, folding: bool) -> (r: (
        Vec<u8>,
        bool,
    ))
        requires
            board@.len() >= 3,
        ensures
            r.1 == (folding && agreed(self.setting().iso, turn_of(board@), possible, actions@)),
            r.0@ == (if board@.len() == 3 || self.setting().store_river {
                stored_cards(self.setting().iso, turn_of(board@), possible, r.1)
            } else {
                Seq::empty()
            }),
    {
        let turn: Option<u8> = if board.len() == 3 {
            None
        } else {
            Some(board[3])
        };
        let (list, folds): (Vec<u8>, bool) = self.cards_to_store(turn, possible, actions, folding);
        if turn.is_some() && !self.options.store_river {
            (Vec::new(), folds)
        } else {
            (list, folds)
        }
    }

    /// The cards whose subtrees are stored, and whether cards are folded: they are while the engine
    /// has solved those that stand for themselves.
    fn cards_to_store(&self, turn: Option<u8>, set: u64, actions: &Vec<Action>, folding: bool) -> (r: (
        Vec<u8>,
        bool,
    ))
        ensures
            r.1 == (folding && agreed(self.setting().iso, turn, set, actions@)),
            r.0@ == stored_cards(self.setting().iso, turn, set, r.1),
    {
        let own: Vec<u8> = self.own_cards_of(turn, set);
        if folding && Isomorphism::verify(own.as_slice(), offered_cards(actions, set).as_slice()) {
            (own, true)
        } else {
            (cards_of(set), false)
        }
    }

    /// Whether a player node is stored without a body.
    pub fn is_pruned(&self, player: u8, weights: &Weights, board_len: usize) -> (r: Result<
        bool,
        Error,
    >)
        ensures
            r == (if player > 1 {
                Err::<bool, Error>(Error::UnknownPlayer(player))
            } else {
                Ok::<bool, Error>(
                    reach_of(self.setting().root[player as int], weights@).below(
                        if board_len == 5 {
                            self.setting().river_prune_epsilon
                        } else {
                            self.setting().prune_epsilon
                        },
                    ),
                )
            }),
    {
        if player > 1 {
            return Err(Error::UnknownPlayer(player));
        }
        let reach: Double = signed::div(weights.total(), self.root[player as usize]);
        if board_len == 5 {
            Ok(reach.lt(&self.options.river_prune_epsilon))
        } else {
            Ok(reach.lt(&self.options.prune_epsilon))
        }
    }

    /// Whether a player node that has a body has EVs.
    pub fn has_ev(&self, board_len: usize) -> (r: bool)
        ensures
            r == (board_len != 5 || self.setting().river_ev),
    {
        board_len != 5 || self.options.river_ev
    }

    fn visit_list(&mut self, keys: &Vec<BlobKey>, nodes: &Vec<GameNode>) -> (r: Result<
        Vec<u32>,
        Error,
    >)
        requires
            old(self).shaped(),
            keys@.len() == nodes@.len(),
            forall|i: int| 0 <= i < keys@.len() ==> (#[trigger] keys@[i]).proper(),
        ensures
            final(self).shaped(),
            final(self).setting() == old(self).setting(),
            match exported_list(
                old(self).setting(),
                old(self).progress(),
                keys@,
                nodes@,
                nodes@.len() as int,
            ) {
                Err(e) => r == Err::<Vec<u32>, Error>(e),
                Ok((p, indices)) => r is Ok && r->Ok_0@ == indices && final(self).progress() == p,
            },
            export_laws::sound(old(self).setting(), old(self).progress()) ==> export_laws::sound(
                final(self).setting(),
                final(self).progress(),
            ),
        decreases nodes@, 0nat,
    {
        let mut indices: Vec<u32> = Vec::new();
        let ghost set = old(self).setting();
        let ghost p0 = old(self).progress();
        for i in 0..nodes.len()
            invariant
                self.shaped(),
                self.setting() == set,
                set == old(self).setting(),
                p0 == old(self).progress(),
                keys@.len() == nodes@.len(),
                forall|j: int| 0 <= j < keys@.len() ==> (#[trigger] keys@[j]).proper(),
                exported_list(set, p0, keys@, nodes@, i as int) is Ok,
                exported_list(set, p0, keys@, nodes@, i as int)->Ok_0.0 == self.progress(),
                exported_list(set, p0, keys@, nodes@, i as int)->Ok_0.1 == indices@,
                export_laws::sound(set, p0) ==> export_laws::sound(set, self.progress()),
        {
            match self.visit(keys[i], &nodes[i]) {
                Ok(index) => indices.push(index),
                Err(e) => {
                    proof {
                        lemma_list_fault(set, p0, keys@, nodes@, i + 1, nodes@.len() as int);
                    }
                    return Err(e);
                },
            }
        }
        Ok(indices)
    }

    /// Exports a node and all below it; the node's number in the blob of its key.
    #[verifier::rlimit(80)]
    fn visit(&mut self, key: BlobKey, node: &GameNode) -> (r: Result<u32, Error>)
        requires
            old(self).shaped(),
            key.proper(),
        ensures
            final(self).shaped(),
            final(self).setting() == old(self).setting(),
            match exported(old(self).setting(), old(self).progress(), key, *node) {
                Err(e) => r == Err::<u32, Error>(e),
                Ok((p, index)) => r == Ok::<u32, Error>(index) && final(self).progress() == p,
            },
            export_laws::sound(old(self).setting(), old(self).progress()) ==> export_laws::sound(
                final(self).setting(),
                final(self).progress(),
            ),
        decreases *node, 0nat,
    {
        let ghost set = self.setting();
        let ghost p0 = self.progress();
        let index: u32 = match self.reserve(key) {
            Ok(index) => index,
            Err(e) => return Err(e),
        };
        let ghost p1 = self.progress();
        proof {
            lemma_reserved(set, p0, key);
            if export_laws::sound(set, p0) {
                export_laws::lemma_reserved(set, p0, key);
            }
        }
        let mut out: BlobNode = new_node(index);
        match node {
            GameNode::Terminal { bets } => {
                out.invest = invest(bets);
            },
            GameNode::Chance { bets, board, possible, actions, children } => {
                if board.len() < 3 {
                    return Err(Error::BoardLength(board.len()));
                }
                let turn: Option<u8> = if board.len() == 3 {
                    None
                } else {
                    Some(board[3])
                };
                if let Some(t) = turn {
                    if t >= 52 {
                        return Err(Error::CardOutOfRange(t));
                    }
                }
                let stored: bool = turn.is_none() || self.options.store_river;
                let (list, folds): (Vec<u8>, bool) = self.cards_to_store(
                    turn,
                    *possible,
                    actions,
                    self.iso_trusted,
                );
                self.iso_trusted = folds;
                proof {
                    export_laws::lemma_same_blobs(set, p1, self.progress());
                }
                if stored && children.len() != list.len() {
                    return Err(Error::MissingSubtree);
                }
                let ghost p2 = self.progress();
                let ghost keys0 = Seq::new(list@.len(), |i: int| card_key(turn, list@[i]));
                proof {
                    lemma_stored_cards(set.iso, turn, *possible, folds);
                    assert forall|i: int| 0 <= i < keys0.len() implies (#[trigger] keys0[i]).proper() by {
                        assert(list@[i] < 52);
                        lemma_card_key(turn, list@[i]);
                    }
                }
                let indices: Vec<u32> = if stored {
                    let keys: Vec<BlobKey> = card_keys(turn, &list);
                    match self.visit_list(&keys, children) {
                        Ok(indices) => indices,
                        Err(e) => return Err(e),
                    }
                } else {
                    Vec::new()
                };
                let ghost p3 = self.progress();
                let ghost count = if stored {
                    list@.len() as int
                } else {
                    0
                };
                assert(exported_list(set, p2, keys0, children@, count) == Ok::<
                    (Progress, Seq<u32>),
                    Error,
                >((p3, indices@)));
                proof {
                    lemma_exported_list_grows(set, p2, keys0, children@, count);
                    lemma_grown(p1, p2, p3);
                }
                out.kind = KIND_CHANCE;
                out.children = self.slots(turn, *possible, stored, &list, &indices, folds);
                out.invest = invest(bets);
                if turn.is_none() {
                    self.note(*possible, folds);
                }
                assert(grown(p1, self.progress()));
            },
            GameNode::Player { bets, board_len, player, weights, actions, solution, children } => {
                let river: bool = *board_len == 5;
                let n: usize = actions.len();
                let pruned: bool = match self.is_pruned(*player, weights, *board_len) {
                    Ok(pruned) => pruned,
                    Err(e) => return Err(e),
                };
                out.kind = KIND_PLAYER;
                out.player = *player;
                out.actions = blob_actions(actions);
                out.invest = invest(bets);
                if pruned {
                    if self.pruned_nodes == u64::MAX {
                        return Err(Error::TooLarge);
                    }
                    self.pruned_nodes = self.pruned_nodes + 1;
                    out.flags = FLAG_PRUNED;
                    out.children = not_stored(n);
                    assert(grown(p1, self.progress()));
                } else {
                    let solution: &Solution = match solution {
                        None => return Err(Error::MissingStrategy),
                        Some(solution) => solution,
                    };
                    let hands: usize = self.hands[*player as usize].len();
                    let with_ev: bool = self.has_ev(*board_len);
                    let (actions_of, hands_of): (usize, usize) = solution.shape();
                    if actions_of != n || hands_of != hands {
                        return Err(Error::StrategyLength(solution.len()));
                    }
                    if with_ev && !solution.stores_ev() {
                        return Err(Error::EvLength(0));
                    }
                    if children.len() != n {
                        return Err(Error::MissingSubtree);
                    }
                    if river {
                        if self.river_player_nodes == u64::MAX {
                            return Err(Error::TooLarge);
                        }
                        self.river_player_nodes = self.river_player_nodes + 1;
                    }
                    let ghost p2 = self.progress();
                    proof {
                        export_laws::lemma_same_blobs(set, p1, p2);
                    }
                    let keys: Vec<BlobKey> = same_keys(key, n);
                    out.children = match self.visit_list(&keys, children) {
                        Ok(indices) => indices,
                        Err(e) => return Err(e),
                    };
                    proof {
                        lemma_exported_list_grows(set, p2, keys@, children@, n as int);
                        lemma_grown(p1, p2, self.progress());
                    }
                    out.strategy = solution.bytes();
                    if with_ev {
                        let (ev, scale): (Vec<i16>, Single) = solution.evs();
                        out.flags = FLAG_HAS_EV;
                        out.ev = ev;
                        out.ev_scale = scale;
                    } else {
                        out.ev_scale = Single { bits: 0 };
                    }
                    assert(grown(p1, self.progress()));
                }
            },
        }
        self.fill(key, index, out);
        proof {
            if export_laws::sound(set, p0) {
                export_laws::law_exports_are_sound(set, p0, key, *node);
            }
        }
        Ok(index)
    }
}

fn card_keys(turn: Option<u8>, list: &Vec<u8>) -> (r: Vec<BlobKey>)
    ensures
        r@ == Seq::new(list@.len(), |i: int| card_key(turn, list@[i])),
{
    let mut out: Vec<BlobKey> = Vec::new();
    for i in 0..list.len()
        invariant
            out@.len() == i,
            forall|j: int| 0 <= j < i ==> #[trigger] out@[j] == card_key(turn, list@[j]),
    {
        let card: u8 = cards::from_lib(list[i]);
        out.push(
            match turn {
                None => BlobKey::Turn(card),
                Some(t) => BlobKey::River(cards::from_lib(t), card),
            },
        );
    }
    assert(out@ =~= Seq::new(list@.len(), |i: int| card_key(turn, list@[i])));
    out
}

fn same_keys(key: BlobKey, n: usize) -> (r: Vec<BlobKey>)
    ensures
        r@ == Seq::new(n as nat, |i: int| key),
{
    let mut out: Vec<BlobKey> = Vec::new();
    for i in 0..n
        invariant
            out@.len() == i,
            forall|j: int| 0 <= j < i ==> #[trigger] out@[j] == key,
    {
        out.push(key);
    }
    assert(out@ =~= Seq::new(n as nat, |i: int| key));
    out
}

fn not_stored(n: usize) -> (r: Vec<u32>)
    ensures
        r@ == Seq::new(n as nat, |i: int| CHILD_NOT_STORED),
{
    let mut out: Vec<u32> = Vec::new();
    for i in 0..n
        invariant
            out@.len() == i,
            forall|j: int| 0 <= j < i ==> #[trigger] out@[j] == CHILD_NOT_STORED,
    {
        out.push(CHILD_NOT_STORED);
    }
    assert(out@ =~= Seq::new(n as nat, |i: int| CHILD_NOT_STORED));
    out
}

/// Where a prefix of a list cannot be exported, the list cannot either.
proof fn lemma_list_fault(
    set: Setting,
    p: Progress,
    keys: Seq<BlobKey>,
    nodes: Seq<GameNode>,
    k: int,
    n: int,
)
    requires
        0 <= k <= n <= nodes.len(),
        exported_list(set, p, keys, nodes, k) is Err,
    ensures
        exported_list(set, p, keys, nodes, n) == exported_list(set, p, keys, nodes, k),
    decreases n - k,
{
    if k < n {
        lemma_list_fault(set, p, keys, nodes, k, n - 1);
    }
}

/// What the engine says of the root of a game.
pub struct Root {
    /// The players' hands.
    pub private_cards: [Vec<(u8, u8)>; 2],
    /// What each hand weighs.
    pub weights: [Vec<Single>; 2],
    pub board: Vec<u8>,
}

/// The combo indices of the first `k` of some hands of the engine.
pub open spec fn combos_of(hands: Seq<(u8, u8)>, k: int) -> Result<Seq<u16>, Error>
    decreases k,
{
    if k <= 0 {
        Ok(Seq::empty())
    } else {
        match combos_of(hands, k - 1) {
            Err(e) => Err(e),
            Ok(before) => match cards::combo_of(
                cards::swapped(hands[k - 1].0 as int) as u8,
                cards::swapped(hands[k - 1].1 as int) as u8,
            ) {
                Err(e) => Err(e),
                Ok(index) => Ok(before.push(index)),
            },
        }
    }
}

/// The first three cards of a board of the engine, as ours.
pub open spec fn flop_of(board: Seq<u8>) -> Seq<u8> {
    Seq::new(
        if board.len() < 3 {
            board.len()
        } else {
            3
        },
        |i: int| cards::swapped(board[i] as int) as u8,
    )
}

/// What an export starts from: the hands must be hands, and both players must have some.
pub open spec fn opened(root: Root, iso: IsomorphismModel, options: ExportOptions) -> Result<Setting, Error> {
    let oop = root.private_cards@[0]@;
    let ip = root.private_cards@[1]@;
    let w0 = root.weights@[0]@;
    let w1 = root.weights@[1]@;
    match combos_of(oop, oop.len() as int) {
        Err(e) => Err(e),
        Ok(oop) => match combos_of(ip, ip.len() as int) {
            Err(e) => Err(e),
            Ok(ip) => if sums::sum(w0).at_most(Double { bits: 0 }) || sums::sum(w1).at_most(
                Double { bits: 0 },
            ) {
                Err(Error::NoReach)
            } else {
                Ok(
                    Setting {
                        header: options.header@,
                        store_river: options.store_river,
                        prune_epsilon: options.prune_epsilon,
                        river_prune_epsilon: options.river_prune_epsilon,
                        river_ev: options.river_ev,
                        compress: options.compress,
                        oop,
                        ip,
                        root: seq![sums::sum(w0), sums::sum(w1)],
                        flop: flop_of(root.board@),
                        iso,
                    },
                )
            },
        },
    }
}

/// An export that has come to nothing yet.
pub open spec fn nothing_yet() -> Progress {
    Progress {
        blobs: Seq::new(NUM_KEYS as nat, |i: int| None),
        node_count: 0,
        pruned_nodes: 0,
        river_player_nodes: 0,
        turn_cards: Seq::new(52, |k: int| false),
        turn_isomorphism: Seq::new(52, |k: int| None),
        trusted: true,
    }
}

fn combos(hands: &Vec<(u8, u8)>) -> (r: Result<Vec<u16>, Error>)
    ensures
        match combos_of(hands@, hands@.len() as int) {
            Err(e) => r == Err::<Vec<u16>, Error>(e),
            Ok(combos) => r is Ok && r->Ok_0@ == combos,
        },
{
    let mut out: Vec<u16> = Vec::new();
    for i in 0..hands.len()
        invariant
            combos_of(hands@, i as int) == Ok::<Seq<u16>, Error>(out@),
    {
        let (a, b): (u8, u8) = hands[i];
        match cards::combo_index(cards::from_lib(a), cards::from_lib(b)) {
            Ok(index) => out.push(index),
            Err(e) => {
                proof {
                    lemma_combo_fault(hands@, i + 1, hands@.len() as int);
                }
                return Err(e);
            },
        }
    }
    Ok(out)
}

proof fn lemma_combo_fault(hands: Seq<(u8, u8)>, k: int, n: int)
    requires
        0 <= k <= n,
        combos_of(hands, k) is Err,
    ensures
        combos_of(hands, n) == combos_of(hands, k),
    decreases n - k,
{
    if k < n {
        lemma_combo_fault(hands, k, n - 1);
    }
}

fn flop(board: &Vec<u8>) -> (r: Vec<u8>)
    ensures
        r@ == flop_of(board@),
{
    let n: usize = if board.len() < 3 {
        board.len()
    } else {
        3
    };
    let mut out: Vec<u8> = Vec::new();
    for i in 0..n
        invariant
            n <= board@.len(),
            out@.len() == i,
            forall|j: int|
                0 <= j < i ==> #[trigger] out@[j] == cards::swapped(board@[j] as int) as u8,
    {
        out.push(cards::from_lib(board[i]));
    }
    assert(out@ =~= flop_of(board@));
    out
}

impl Exporter {
    /// An export that is about to start.
    pub fn new(root: &Root, iso: Isomorphism, options: ExportOptions) -> (r: Result<Exporter, Error>)
        ensures
            match opened(*root, iso@, options) {
                Err(e) => r matches Err(f) && f == e,
                Ok(set) => r matches Ok(exporter) && exporter.well_formed() && exporter.setting()
                    == set && exporter.progress() == nothing_yet(),
            },
    {
        let oop: Vec<u16> = match combos(&root.private_cards[0]) {
            Ok(oop) => oop,
            Err(e) => return Err(e),
        };
        let ip: Vec<u16> = match combos(&root.private_cards[1]) {
            Ok(ip) => ip,
            Err(e) => return Err(e),
        };
        let w0: Double = sums::sum_of(&root.weights[0]);
        let w1: Double = sums::sum_of(&root.weights[1]);
        let nothing: Double = Double { bits: 0 };
        if w0.le(&nothing) || w1.le(&nothing) {
            return Err(Error::NoReach);
        }
        let mut blobs: Vec<Option<Blob>> = Vec::new();
        for i in 0..NUM_KEYS
            invariant
                blobs@.len() == i,
                forall|j: int| 0 <= j < i ==> (#[trigger] blobs@[j]) is None,
        {
            blobs.push(None);
        }
        let mut turn_cards: Vec<bool> = Vec::new();
        let mut turn_isomorphism: Vec<Option<u8>> = Vec::new();
        for i in 0..52usize
            invariant
                turn_cards@.len() == i,
                turn_isomorphism@.len() == i,
                forall|j: int| 0 <= j < i ==> !(#[trigger] turn_cards@[j]),
                forall|j: int| 0 <= j < i ==> (#[trigger] turn_isomorphism@[j]) is None,
        {
            turn_cards.push(false);
            turn_isomorphism.push(None);
        }
        let exporter: Exporter = Exporter {
            options,
            iso,
            hands: [oop, ip],
            root: [w0, w1],
            flop: flop(&root.board),
            blobs,
            node_count: 0,
            pruned_nodes: 0,
            river_player_nodes: 0,
            turn_cards,
            turn_isomorphism,
            iso_trusted: true,
        };
        proof {
            assert(exporter.progress().blobs =~= nothing_yet().blobs);
            assert(exporter.progress().turn_cards =~= nothing_yet().turn_cards);
            assert(exporter.progress().turn_isomorphism =~= nothing_yet().turn_isomorphism);
            export_laws::law_exports_start_sound(exporter.setting());
            assert(exporter.setting().root =~= opened(*root, exporter.iso@, exporter.options)->Ok_0.root);
        }
        Ok(exporter)
    }

    /// Exports a node and all below it; the node's number in the blob of its key. A player node is
    /// stored without a body where it is reached too rarely, and with its strategy else; EVs are
    /// left out on the river alone, and only where that is asked for.
    pub fn walk(&mut self, key: BlobKey, node: &GameNode) -> (r: Result<u32, Error>)
        requires
            old(self).well_formed(),
            key.proper(),
        ensures
            final(self).well_formed(),
            final(self).setting() == old(self).setting(),
            match exported(old(self).setting(), old(self).progress(), key, *node) {
                Err(e) => r == Err::<u32, Error>(e),
                Ok((p, index)) => r == Ok::<u32, Error>(index) && final(self).progress() == p,
            },
            r is Ok && *node is Player ==> export_laws::is_player_node(
                final(self).setting(),
                *node,
                final(self).progress().blobs[key.place()]->0.nodes[r->Ok_0 as int],
            ),
    {
        let r: Result<u32, Error> = self.visit(key, node);
        proof {
            if r is Ok && *node is Player {
                export_laws::law_player_nodes(old(self).setting(), old(self).progress(), key, *node);
            }
        }
        r
    }

    /// Exports a whole game.
    pub fn run(&mut self, tree: &GameNode) -> (r: Result<u32, Error>)
        requires
            old(self).well_formed(),
        ensures
            final(self).well_formed(),
            final(self).setting() == old(self).setting(),
            match exported(old(self).setting(), old(self).progress(), BlobKey::Start, *tree) {
                Err(e) => r == Err::<u32, Error>(e),
                Ok((p, index)) => r == Ok::<u32, Error>(index) && final(self).progress() == p,
            },
    {
        self.walk(BlobKey::Start, tree)
    }
}

// ---------------------------------------------------------------------------------------------
// Files and summary.
// ---------------------------------------------------------------------------------------------

/// The key at a place among all keys.
pub open spec fn key_at(place: int) -> BlobKey {
    if place == 0 {
        BlobKey::Start
    } else if place < 53 {
        BlobKey::Turn((place - 1) as u8)
    } else {
        BlobKey::River(((place - 53) / 52) as u8, ((place - 53) % 52) as u8)
    }
}

/// The keys of the first `k` places that have blobs, in order.
pub open spec fn keys_of(blobs: Seq<Option<BlobModel>>, k: int) -> Seq<BlobKey>
    decreases k,
{
    if k <= 0 {
        Seq::empty()
    } else if blobs[k - 1] is Some {
        keys_of(blobs, k - 1).push(key_at(k - 1))
    } else {
        keys_of(blobs, k - 1)
    }
}

/// The path of a file: packed files have an ending of their own.
pub open spec fn file_path(set: Setting, key: BlobKey) -> Seq<char> {
    let path = files::path_of(key, set.header.street)->Ok_0;
    if set.compress {
        path + ".br"@
    } else {
        path
    }
}

/// A file holds a blob, packed or as it is, and what is said of the file is so.
pub open spec fn holds_blob(set: Setting, key: BlobKey, b: BlobModel, info: FileInfo, content: Seq<u8>) -> bool {
    &&& if set.compress {
        packing::packs(blob::encode(b), Some(content))
    } else {
        content == blob::encode(b)
    }
    &&& info.path@ == file_path(set, key)
    &&& info.nodes == b.nodes.len() % 0x1_0000_0000
    &&& info.bytes_raw == blob::encode(b).len()
    &&& info.bytes_stored == content.len()
}

/// The raw sizes of the first `k` files together.
pub open spec fn raw_total(list: Seq<FileInfo>, k: int) -> int
    decreases k,
{
    if k <= 0 {
        0
    } else {
        raw_total(list, k - 1) + list[k - 1].bytes_raw
    }
}

/// The stored sizes of the first `k` files together.
pub open spec fn stored_total(list: Seq<FileInfo>, k: int) -> int
    decreases k,
{
    if k <= 0 {
        0
    } else {
        stored_total(list, k - 1) + list[k - 1].bytes_stored
    }
}

/// The names, sorted, of the marked ones among the first `k` cards by name.
pub open spec fn names_of(marked: Seq<bool>, k: int) -> Seq<Seq<char>>
    decreases k,
{
    if k <= 0 {
        Seq::empty()
    } else {
        let card = files::card_by_name(k - 1);
        if marked[card] {
            names_of(marked, k - 1).push(cards::card_text(card))
        } else {
            names_of(marked, k - 1)
        }
    }
}

/// The names, sorted, of those among the first `k` cards by name that another card stands for,
/// each with that card's name.
pub open spec fn pairs_of(stand_ins: Seq<Option<u8>>, k: int) -> Seq<(Seq<char>, Seq<char>)>
    decreases k,
{
    if k <= 0 {
        Seq::empty()
    } else {
        let card = files::card_by_name(k - 1);
        match stand_ins[card] {
            None => pairs_of(stand_ins, k - 1),
            Some(other) => pairs_of(stand_ins, k - 1).push(
                (cards::card_text(card), cards::card_text(other as int)),
            ),
        }
    }
}

/// The letters of a list of pairs of strings.
pub open spec fn pair_letters(list: Seq<(String, String)>) -> Seq<(Seq<char>, Seq<char>)> {
    Seq::new(list.len(), |i: int| (list[i].0@, list[i].1@))
}

/// What is warned of once the engine has not solved the cards that stand for themselves.
pub const ISOMORPHISM_WARNING: &'static str =
    "수트 동형 표가 엔진 대표 목록과 달라 동형 축약을 끄고 모든 카드를 저장한다";

/// What is said of an export whose files are `list`.
pub open spec fn summarizes(summary: ExportSummary, p: Progress, list: Seq<FileInfo>) -> bool {
    &&& summary.files@ == list
    &&& summary.node_count == p.node_count
    &&& summary.pruned_nodes == p.pruned_nodes
    &&& summary.river_player_nodes == p.river_player_nodes
    &&& text::letters(summary.turn_cards@) == names_of(p.turn_cards, 52)
    &&& pair_letters(summary.turn_isomorphism@) == pairs_of(p.turn_isomorphism, 52)
    &&& text::letters(summary.warnings@) == (if p.trusted {
        Seq::empty()
    } else {
        seq![ISOMORPHISM_WARNING@]
    })
    &&& summary.bytes_raw == raw_total(list, list.len() as int) % 0x1_0000_0000_0000_0000
    &&& summary.bytes_stored == stored_total(list, list.len() as int) % 0x1_0000_0000_0000_0000
}

fn name(card: u8) -> (r: String)
    requires
        card < 52,
    ensures
        r@ == cards::card_text(card as int),
{
    match cards::card_to_string(card) {
        Ok(name) => name,
        Err(_) => String::new(),
    }
}

impl Exporter {
    /// The keys of the blobs that there are, in order.
    pub fn keys(&self) -> (r: Vec<BlobKey>)
        requires
            self.well_formed(),
        ensures
            r@ == keys_of(self.progress().blobs, NUM_KEYS as int),
    {
        let mut out: Vec<BlobKey> = Vec::new();
        for i in 0..NUM_KEYS
            invariant
                self.well_formed(),
                out@ == keys_of(self.progress().blobs, i as int),
        {
            if self.blobs[i].is_some() {
                let key: BlobKey = if i == 0 {
                    BlobKey::Start
                } else if i < 53 {
                    BlobKey::Turn((i - 1) as u8)
                } else {
                    BlobKey::River(((i - 53) / 52) as u8, ((i - 53) % 52) as u8)
                };
                out.push(key);
            }
        }
        out
    }

    /// The file of a blob, and what is said of it.
    pub fn pack(&self, key: BlobKey) -> (r: Result<(FileInfo, Vec<u8>), Error>)
        requires
            self.well_formed(),
            key.proper(),
            self.progress().blobs[key.place()] is Some,
        ensures
            ({
                let b = self.progress().blobs[key.place()]->0;
                match blob::write_fault(b) {
                    Some(e) => r == Err::<(FileInfo, Vec<u8>), Error>(e),
                    None => match r {
                        Ok((info, content)) => holds_blob(self.setting(), key, b, info, content@),
                        Err(e) => self.setting().compress && e == Error::Compression && packing::packs(
                            blob::encode(b),
                            None,
                        ),
                    },
                }
            }),
    {
        let at: usize = place(key);
        let ghost b = self.progress().blobs[key.place()]->0;
        let path: String = match blob_path(key, self.options.header.street) {
            Ok(path) => path,
            Err(e) => return Err(e),
        };
        let blob: &Blob = match &self.blobs[at] {
            Some(blob) => blob,
            None => return Err(Error::MissingSubtree),
        };
        assert(blob@ == b);
        let bytes: Vec<u8> = match blob.to_bytes() {
            Ok(bytes) => bytes,
            Err(e) => return Err(e),
        };
        let nodes: u32 = (blob.nodes.len() as u64 % 0x1_0000_0000) as u32;
        let packed: Option<Result<Vec<u8>, Error>> = if self.options.compress {
            Some(compress(bytes.as_slice()))
        } else {
            None
        };
        stored_file(path, nodes, bytes, packed)
    }

    fn sorted_names(&self) -> (r: Vec<String>)
        requires
            self.well_formed(),
        ensures
            text::letters(r@) == names_of(self.progress().turn_cards, 52),
    {
        let mut out: Vec<String> = Vec::new();
        assert(text::letters(out@) =~= names_of(self.progress().turn_cards, 0));
        for i in 0..52u8
            invariant
                self.well_formed(),
                text::letters(out@) == names_of(self.progress().turn_cards, i as int),
        {
            let card: u8 = named_card(i);
            if self.turn_cards[card as usize] {
                let ghost before = out@;
                out.push(name(card));
                assert(text::letters(out@) =~= text::letters(before).push(cards::card_text(card as int)));
            }
        }
        out
    }

    fn sorted_pairs(&self) -> (r: Vec<(String, String)>)
        requires
            self.well_formed(),
        ensures
            pair_letters(r@) == pairs_of(self.progress().turn_isomorphism, 52),
    {
        let mut out: Vec<(String, String)> = Vec::new();
        assert(pair_letters(out@) =~= pairs_of(self.progress().turn_isomorphism, 0));
        for i in 0..52u8
            invariant
                self.well_formed(),
                pair_letters(out@) == pairs_of(self.progress().turn_isomorphism, i as int),
        {
            let card: u8 = named_card(i);
            if let Some(other) = self.turn_isomorphism[card as usize] {
                assert(self.turn_isomorphism@[card as int] == Some(other));
                let ghost before = out@;
                out.push((name(card), name(other)));
                assert(pair_letters(out@) =~= pair_letters(before).push(
                    (cards::card_text(card as int), cards::card_text(other as int)),
                ));
            }
        }
        out
    }

    /// What is said of the export, given what is said of its files.
    pub fn summary(&self, list: Vec<FileInfo>) -> (r: ExportSummary)
        requires
            self.well_formed(),
        ensures
            summarizes(r, self.progress(), list@),
    {
        let mut raw: u64 = 0;
        let mut stored: u64 = 0;
        for i in 0..list.len()
            invariant
                raw == raw_total(list@, i as int) % 0x1_0000_0000_0000_0000,
                stored == stored_total(list@, i as int) % 0x1_0000_0000_0000_0000,
        {
            raw = raw.wrapping_add(list[i].bytes_raw);
            stored = stored.wrapping_add(list[i].bytes_stored);
        }
        let mut warnings: Vec<String> = Vec::new();
        if !self.iso_trusted {
            warnings.push(ISOMORPHISM_WARNING.to_owned());
        }
        assert(text::letters(warnings@) =~= (if self.progress().trusted {
            Seq::empty()
        } else {
            seq![ISOMORPHISM_WARNING@]
        }));
        ExportSummary {
            files: list,
            node_count: self.node_count,
            pruned_nodes: self.pruned_nodes,
            turn_cards: self.sorted_names(),
            turn_isomorphism: self.sorted_pairs(),
            warnings,
            bytes_raw: raw,
            bytes_stored: stored,
            river_player_nodes: self.river_player_nodes,
        }
    }
}

} // verus!
