//! How many nodes a game tree has once chance cards are dealt out.

use vstd::prelude::*;

use crate::error::Error;
use crate::tree;
use crate::tree::{Isomorphism, IsomorphismModel};

verus! {

/// A node of the engine's action tree, which leaves chance cards out: a node where a card is
/// dealt has the actions that follow the card.
pub struct ActionNode {
    pub terminal: bool,
    pub chance: bool,
    pub children: Vec<ActionNode>,
}

/// Numbers of nodes.
#[derive(Debug, Clone, Copy, PartialEq, Eq, Structural)]
pub struct NodeCount {
    pub total: u64,
    pub player: u64,
    pub chance: u64,
    pub terminal: u64,
    /// Visits of nodes of the action tree, a river's subtree visited once for all rivers.
    pub action_tree: u64,
}

/// Numbers of nodes, without bound.
pub struct Counts {
    pub total: int,
    pub player: int,
    pub chance: int,
    pub terminal: int,
    pub action_tree: int,
}

impl View for NodeCount {
    type V = Counts;

    open spec fn view(&self) -> Counts {
        Counts {
            total: self.total as int,
            player: self.player as int,
            chance: self.chance as int,
            terminal: self.terminal as int,
            action_tree: self.action_tree as int,
        }
    }
}

impl Counts {
    pub open spec fn plus(self, other: Counts) -> Counts {
        Counts {
            total: self.total + other.total,
            player: self.player + other.player,
            chance: self.chance + other.chance,
            terminal: self.terminal + other.terminal,
            action_tree: self.action_tree + other.action_tree,
        }
    }

    /// The nodes of `k` subtrees that are alike, each of which is visited once.
    pub open spec fn times(self, k: int) -> Counts {
        Counts {
            total: self.total * k,
            player: self.player * k,
            chance: self.chance * k,
            terminal: self.terminal * k,
            action_tree: self.action_tree,
        }
    }

    pub open spec fn at_most(self, other: Counts) -> bool {
        &&& 0 <= self.total <= other.total
        &&& 0 <= self.player <= other.player
        &&& 0 <= self.chance <= other.chance
        &&& 0 <= self.terminal <= other.terminal
        &&& 0 <= self.action_tree <= other.action_tree
    }

    /// Every number has 64 bits.
    pub open spec fn fits(self) -> bool {
        &&& 0 <= self.total <= u64::MAX
        &&& 0 <= self.player <= u64::MAX
        &&& 0 <= self.chance <= u64::MAX
        &&& 0 <= self.terminal <= u64::MAX
        &&& 0 <= self.action_tree <= u64::MAX
    }
}

pub open spec fn one_terminal() -> Counts {
    Counts { total: 1, player: 0, chance: 0, terminal: 1, action_tree: 1 }
}

pub open spec fn one_chance() -> Counts {
    Counts { total: 1, player: 0, chance: 1, terminal: 0, action_tree: 1 }
}

pub open spec fn one_player() -> Counts {
    Counts { total: 1, player: 1, chance: 0, terminal: 0, action_tree: 1 }
}

pub open spec fn nothing() -> Counts {
    Counts { total: 0, player: 0, chance: 0, terminal: 0, action_tree: 0 }
}

/// The nodes below and with `node`, given the turn card if it is dealt. A node where a card is
/// dealt counts once for itself and, with the card dealt, as the node that follows, once for
/// every card that stands for itself.
pub open spec fn nodes_of(node: ActionNode, m: IsomorphismModel, turn: Option<u8>, dealt: bool) -> Counts
    decreases
            node,
            (if dealt {
                1int
            } else {
                3int
            }),
            0int,
{
    if node.terminal {
        one_terminal()
    } else if !dealt && node.chance {
        match turn {
            None => one_chance().plus(nodes_by_turn(node, m, m.turn_cards(52).len() as int)),
            Some(t) => one_chance().plus(
                nodes_of(node, m, turn, true).times(m.river_cards(t, 52).len() as int),
            ),
        }
    } else {
        one_player().plus(nodes_of_children(node, m, turn, node.children@.len() as int))
    }
}

/// The nodes after the first `k` turn cards.
pub open spec fn nodes_by_turn(node: ActionNode, m: IsomorphismModel, k: int) -> Counts
    decreases node, 2int, k,
{
    if k <= 0 {
        nothing()
    } else {
        nodes_by_turn(node, m, k - 1).plus(
            nodes_of(node, m, Some(m.turn_cards(52)[k - 1]), true),
        )
    }
}

/// The nodes of the first `k` children's subtrees.
pub open spec fn nodes_of_children(node: ActionNode, m: IsomorphismModel, turn: Option<u8>, k: int) -> Counts
    decreases node, 0int, k,
{
    if k <= 0 || k > node.children@.len() {
        nothing()
    } else {
        nodes_of_children(node, m, turn, k - 1).plus(
            nodes_of(node.children@[k - 1], m, turn, false),
        )
    }
}

/// Counts are not negative, and every node is a player's, a card's or an end.
proof fn lemma_sound(node: ActionNode, m: IsomorphismModel, turn: Option<u8>, dealt: bool)
    ensures
        nothing().at_most(nodes_of(node, m, turn, dealt)),
        ({
            let c = nodes_of(node, m, turn, dealt);
            c.total == c.player + c.chance + c.terminal
        }),
    decreases
            node,
            (if dealt {
                1int
            } else {
                3int
            }),
            0int,
{
    if node.terminal {
    } else if !dealt && node.chance {
        match turn {
            None => {
                lemma_sound_turns(node, m, m.turn_cards(52).len() as int);
            },
            Some(t) => {
                lemma_sound(node, m, turn, true);
                let c = nodes_of(node, m, turn, true);
                let k = m.river_cards(t, 52).len() as int;
                let total = c.total;
                let player = c.player;
                let chance = c.chance;
                let terminal = c.terminal;
                assert(total * k >= 0 && player * k >= 0 && chance * k >= 0 && terminal * k >= 0
                    && total * k == player * k + chance * k + terminal * k) by (nonlinear_arith)
                    requires
                        total >= 0,
                        player >= 0,
                        chance >= 0,
                        terminal >= 0,
                        k >= 0,
                        total == player + chance + terminal,
                ;
            },
        }
    } else {
        lemma_sound_children(node, m, turn, node.children@.len() as int);
    }
}

proof fn lemma_sound_turns(node: ActionNode, m: IsomorphismModel, k: int)
    requires
        k <= m.turn_cards(52).len(),
    ensures
        nothing().at_most(nodes_by_turn(node, m, k)),
        ({
            let c = nodes_by_turn(node, m, k);
            c.total == c.player + c.chance + c.terminal
        }),
    decreases node, 2int, k,
{
    if k > 0 {
        lemma_sound_turns(node, m, k - 1);
        lemma_sound(node, m, Some(m.turn_cards(52)[k - 1]), true);
    }
}

proof fn lemma_sound_children(node: ActionNode, m: IsomorphismModel, turn: Option<u8>, k: int)
    requires
        k <= node.children@.len(),
    ensures
        nothing().at_most(nodes_of_children(node, m, turn, k)),
        ({
            let c = nodes_of_children(node, m, turn, k);
            c.total == c.player + c.chance + c.terminal
        }),
    decreases node, 0int, k,
{
    if k > 0 {
        lemma_sound_children(node, m, turn, k - 1);
        lemma_sound(node.children@[k - 1], m, turn, false);
    }
}

proof fn lemma_turns_grow(node: ActionNode, m: IsomorphismModel, j: int, k: int)
    requires
        0 <= j <= k <= m.turn_cards(52).len(),
    ensures
        nodes_by_turn(node, m, j).at_most(nodes_by_turn(node, m, k)),
    decreases k,
{
    lemma_sound_turns(node, m, j);
    if j < k {
        lemma_turns_grow(node, m, j, k - 1);
        lemma_sound(node, m, Some(m.turn_cards(52)[k - 1]), true);
    }
}

proof fn lemma_children_grow(node: ActionNode, m: IsomorphismModel, turn: Option<u8>, j: int, k: int)
    requires
        0 <= j <= k <= node.children@.len(),
    ensures
        nodes_of_children(node, m, turn, j).at_most(nodes_of_children(node, m, turn, k)),
    decreases k,
{
    lemma_sound_children(node, m, turn, j);
    if j < k {
        lemma_children_grow(node, m, turn, j, k - 1);
        lemma_sound(node.children@[k - 1], m, turn, false);
    }
}

/// After every turn there is a river card that stands for itself.
proof fn lemma_some_river(m: IsomorphismModel, turn: u8)
    requires
        m.well_formed(),
    ensures
        m.river_cards(turn, 52).len() >= 1,
{
    let board = m.flop.push(turn);
    assert(board.len() == 4);
    let c: int = if !tree::among(board, 0) {
        0
    } else if !tree::among(board, 4) {
        4
    } else if !tree::among(board, 8) {
        8
    } else if !tree::among(board, 12) {
        12
    } else {
        16
    };
    if tree::among(board, c) {
        let i0 = choose|i: int| 0 <= i < board.len() && #[trigger] board[i] == 0;
        let i1 = choose|i: int| 0 <= i < board.len() && #[trigger] board[i] == 4;
        let i2 = choose|i: int| 0 <= i < board.len() && #[trigger] board[i] == 8;
        let i3 = choose|i: int| 0 <= i < board.len() && #[trigger] board[i] == 12;
        let i4 = choose|i: int| 0 <= i < board.len() && #[trigger] board[i] == 16;
        assert(board[i0] == 0 && board[i1] == 4 && board[i2] == 8 && board[i3] == 12 && board[i4]
            == 16);
        assert(false);
    }
    assert(m.river_card(turn, c) == c);
    lemma_river_listed(m, turn, c, 52);
}

proof fn lemma_river_listed(m: IsomorphismModel, turn: u8, c: int, n: int)
    requires
        0 <= c < n,
        !tree::among(m.flop.push(turn), c),
        m.river_card(turn, c) == c,
    ensures
        m.river_cards(turn, n).len() >= 1,
    decreases n,
{
    if c < n - 1 {
        lemma_river_listed(m, turn, c, n - 1);
    }
}

fn plus(a: &NodeCount, b: &NodeCount) -> (r: Option<NodeCount>)
    ensures
        match r {
            Some(c) => c@ == a@.plus(b@),
            None => !a@.plus(b@).fits(),
        },
{
    let total: u64 = match a.total.checked_add(b.total) {
        Some(v) => v,
        None => return None,
    };
    let player: u64 = match a.player.checked_add(b.player) {
        Some(v) => v,
        None => return None,
    };
    let chance: u64 = match a.chance.checked_add(b.chance) {
        Some(v) => v,
        None => return None,
    };
    let terminal: u64 = match a.terminal.checked_add(b.terminal) {
        Some(v) => v,
        None => return None,
    };
    let action_tree: u64 = match a.action_tree.checked_add(b.action_tree) {
        Some(v) => v,
        None => return None,
    };
    Some(NodeCount { total, player, chance, terminal, action_tree })
}

fn times(a: &NodeCount, k: u64) -> (r: Option<NodeCount>)
    ensures
        match r {
            Some(c) => c@ == a@.times(k as int),
            None => !a@.times(k as int).fits(),
        },
{
    let total: u64 = match a.total.checked_mul(k) {
        Some(v) => v,
        None => return None,
    };
    let player: u64 = match a.player.checked_mul(k) {
        Some(v) => v,
        None => return None,
    };
    let chance: u64 = match a.chance.checked_mul(k) {
        Some(v) => v,
        None => return None,
    };
    let terminal: u64 = match a.terminal.checked_mul(k) {
        Some(v) => v,
        None => return None,
    };
    Some(NodeCount { total, player, chance, terminal, action_tree: a.action_tree })
}

/// The nodes below and with a node; nothing where a number would not have 64 bits.
fn walk_count(node: &ActionNode, iso: &Isomorphism, turn: Option<u8>, dealt: bool) -> (r: Option<NodeCount>)
    ensures
        match r {
            Some(c) => c@ == nodes_of(*node, iso@, turn, dealt),
            None => !nodes_of(*node, iso@, turn, dealt).fits(),
        },
    decreases
            *node,
            (if dealt {
                1int
            } else {
                3int
            }),
            0int,
{
    if node.terminal {
        return Some(NodeCount { total: 1, player: 0, chance: 0, terminal: 1, action_tree: 1 });
    }
    if !dealt && node.chance {
        let mut count: NodeCount = NodeCount {
            total: 1,
            player: 0,
            chance: 1,
            terminal: 0,
            action_tree: 1,
        };
        match turn {
            None => {
                let cards: Vec<u8> = iso.turn_representatives();
                for k in 0..cards.len()
                    invariant
                        cards@ == iso@.turn_cards(52),
                        !node.terminal,
                        node.chance,
                        turn is None,
                        !dealt,
                        count@ == one_chance().plus(nodes_by_turn(*node, iso@, k as int)),
                {
                    proof {
                        lemma_turns_grow(*node, iso@, k + 1, cards@.len() as int);
                        lemma_sound_turns(*node, iso@, k as int);
                        lemma_sound(*node, iso@, Some(cards@[k as int]), true);
                    }
                    let more: NodeCount = match walk_count(node, iso, Some(cards[k]), true) {
                        Some(more) => more,
                        None => return None,
                    };
                    count = match plus(&count, &more) {
                        Some(count) => count,
                        None => return None,
                    };
                }
                return Some(count);
            },
            Some(t) => {
                let rivers: usize = iso.river_representatives(t).len();
                proof {
                    iso.lemma_well_formed();
                    lemma_some_river(iso@, t);
                    lemma_sound(*node, iso@, turn, true);
                    let c = nodes_of(*node, iso@, turn, true);
                    let k = rivers as int;
                    lemma_times_grow(c, k);
                }
                let one: NodeCount = match walk_count(node, iso, turn, true) {
                    Some(one) => one,
                    None => return None,
                };
                let all: NodeCount = match times(&one, rivers as u64) {
                    Some(all) => all,
                    None => return None,
                };
                return plus(&count, &all);
            },
        }
    }
    let mut count: NodeCount = NodeCount {
        total: 1,
        player: 1,
        chance: 0,
        terminal: 0,
        action_tree: 1,
    };
    for k in 0..node.children.len()
        invariant
            !node.terminal,
            dealt || !node.chance,
            count@ == one_player().plus(nodes_of_children(*node, iso@, turn, k as int)),
    {
        proof {
            lemma_children_grow(*node, iso@, turn, k + 1, node.children@.len() as int);
            lemma_sound_children(*node, iso@, turn, k as int);
            lemma_sound(node.children@[k as int], iso@, turn, false);
        }
        let more: NodeCount = match walk_count(&node.children[k], iso, turn, false) {
            Some(more) => more,
            None => return None,
        };
        count = match plus(&count, &more) {
            Some(count) => count,
            None => return None,
        };
    }
    Some(count)
}

proof fn lemma_times_grow(c: Counts, k: int)
    requires
        nothing().at_most(c),
        k >= 1,
    ensures
        c.at_most(c.times(k)),
{
    let total = c.total;
    let player = c.player;
    let chance = c.chance;
    let terminal = c.terminal;
    assert(total <= total * k && player <= player * k && chance <= chance * k && terminal <= terminal
        * k) by (nonlinear_arith)
        requires
            total >= 0,
            player >= 0,
            chance >= 0,
            terminal >= 0,
            k >= 1,
    ;
}

/// The nodes of a game tree, given the turn card if the game starts after it.
pub fn count_nodes(tree: &ActionNode, iso: &Isomorphism, fixed_turn: Option<u8>) -> (r: Result<
    NodeCount,
    Error,
>)
    ensures
        match r {
            Ok(c) => c@ == nodes_of(*tree, iso@, fixed_turn, false),
            Err(e) => !nodes_of(*tree, iso@, fixed_turn, false).fits() && e == Error::TooLarge,
        },
{
    match walk_count(tree, iso, fixed_turn, false) {
        Some(count) => Ok(count),
        None => Err(Error::TooLarge),
    }
}

/// Every node is a player's node, a node where a card is dealt, or an end.
pub proof fn law_kinds_add_up(tree: ActionNode, m: IsomorphismModel, fixed_turn: Option<u8>)
    ensures
        ({
            let c = nodes_of(tree, m, fixed_turn, false);
            c.total == c.player + c.chance + c.terminal
        }),
{
    lemma_sound(tree, m, fixed_turn, false);
}

} // verus!
