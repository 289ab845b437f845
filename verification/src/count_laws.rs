//! What holds of the numbers of nodes: they are those of the tree with its cards dealt out.

use vstd::prelude::*;

use crate::count;
use crate::count::{ActionNode, Counts};
use crate::tree;
use crate::tree::IsomorphismModel;

verus! {

/// The cards that stand for a turn card that may come.
pub open spec fn turn_stand_ins(m: IsomorphismModel) -> Set<int> {
    Set::new(
        |r: int|
            exists|c: int|
                0 <= c < 52 && !tree::among(m.flop, c) && #[trigger] m.turn_card(c) == r,
    )
}

/// The cards that stand for a river card that may come after a turn card.
pub open spec fn river_stand_ins(m: IsomorphismModel, turn: u8) -> Set<int> {
    Set::new(
        |r: int|
            exists|c: int|
                0 <= c < 52 && !tree::among(m.flop.push(turn), c) && #[trigger] m.river_card(turn, c)
                    == r,
    )
}

/// A list that ascends has as many cards as it holds different ones.
proof fn lemma_ascending(list: Seq<u8>, cards: Set<int>)
    requires
        forall|i: int, j: int| 0 <= i < j < list.len() ==> #[trigger] list[i] < #[trigger] list[j],
        forall|c: int|
            #[trigger] cards.contains(c) <==> exists|i: int|
                0 <= i < list.len() && #[trigger] list[i] == c,
    ensures
        cards.finite(),
        cards.len() == list.len(),
    decreases list.len(),
{
    if list.len() == 0 {
        assert(cards =~= Set::empty());
    } else {
        let last = list.last() as int;
        let rest = cards.remove(last);
        let shorter = list.drop_last();
        assert forall|c: int| #[trigger] rest.contains(c) <==> exists|i: int|
            0 <= i < shorter.len() && #[trigger] shorter[i] == c by {
            if rest.contains(c) {
                assert(cards.contains(c));
                let i = choose|i: int| 0 <= i < list.len() && #[trigger] list[i] == c;
                assert(i < list.len() - 1);
                assert(shorter[i] == c);
            }
            if exists|i: int| 0 <= i < shorter.len() && #[trigger] shorter[i] == c {
                let i = choose|i: int| 0 <= i < shorter.len() && #[trigger] shorter[i] == c;
                assert(list[i] == c);
                assert(list[i] < list[list.len() - 1]);
                assert(cards.contains(c));
            }
        }
        lemma_ascending(shorter, rest);
        assert(list[list.len() - 1] == last);
        assert(cards.contains(last));
        assert(rest.insert(last) =~= cards);
    }
}

/// The river cards that are listed are those that stand for some card.
proof fn lemma_rivers(m: IsomorphismModel, turn: u8)
    requires
        m.well_formed(),
    ensures
        river_stand_ins(m, turn).finite(),
        river_stand_ins(m, turn).len() == m.river_cards(turn, 52).len(),
{
    let list = m.river_cards(turn, 52);
    let cards = river_stand_ins(m, turn);
    assert forall|r: int| #[trigger] cards.contains(r) <==> exists|i: int|
        0 <= i < list.len() && #[trigger] list[i] == r by {
        if cards.contains(r) {
            let c = choose|c: int|
                0 <= c < 52 && !tree::among(m.flop.push(turn), c) && #[trigger] m.river_card(turn, c)
                    == r;
            tree::law_river_representative(m, turn, c);
            tree::law_river_representatives(m, turn, c as u8);
            let i = choose|i: int| 0 <= i < list.len() && list[i] == r as u8;
            assert(list[i] == r);
        }
        if exists|i: int| 0 <= i < list.len() && #[trigger] list[i] == r {
            let i = choose|i: int| 0 <= i < list.len() && #[trigger] list[i] == r;
            assert(list.contains(list[i]));
            tree::law_river_representatives(m, turn, list[i]);
            assert(m.river_card(turn, r) == r);
        }
    }
    tree::law_river_representatives(m, turn, 0);
    lemma_ascending(list, cards);
}

/// The turn cards that are listed are those that stand for some card.
proof fn lemma_turns(m: IsomorphismModel)
    requires
        m.well_formed(),
    ensures
        forall|r: int|
            #[trigger] turn_stand_ins(m).contains(r) <==> exists|i: int|
                0 <= i < m.turn_cards(52).len() && #[trigger] m.turn_cards(52)[i] == r,
        turn_stand_ins(m).finite(),
        turn_stand_ins(m).len() == m.turn_cards(52).len(),
{
    let list = m.turn_cards(52);
    let cards = turn_stand_ins(m);
    assert forall|r: int| #[trigger] cards.contains(r) <==> exists|i: int|
        0 <= i < list.len() && #[trigger] list[i] == r by {
        if cards.contains(r) {
            let c = choose|c: int|
                0 <= c < 52 && !tree::among(m.flop, c) && #[trigger] m.turn_card(c) == r;
            tree::law_turn_representative(m, c);
            tree::law_turn_representatives(m, c as u8);
            let i = choose|i: int| 0 <= i < list.len() && list[i] == r as u8;
            assert(list[i] == r);
        }
        if exists|i: int| 0 <= i < list.len() && #[trigger] list[i] == r {
            let i = choose|i: int| 0 <= i < list.len() && #[trigger] list[i] == r;
            assert(list.contains(list[i]));
            tree::law_turn_representatives(m, list[i]);
            assert(m.turn_card(r) == r);
        }
    }
    tree::law_turn_representatives(m, 0);
    lemma_ascending(list, cards);
}

/// A number of nodes added up over the first `k` of a list of numbers.
pub open spec fn added(counts: Seq<Counts>, k: int) -> Counts
    decreases k,
{
    if k <= 0 {
        Counts { total: 0, player: 0, chance: 0, terminal: 0, action_tree: 0 }
    } else {
        let before = added(counts, k - 1);
        let c = counts[k - 1];
        Counts {
            total: before.total + c.total,
            player: before.player + c.player,
            chance: before.chance + c.chance,
            terminal: before.terminal + c.terminal,
            action_tree: before.action_tree + c.action_tree,
        }
    }
}

/// An end is one node and one visit, and no player's and no card's node, wherever it is.
pub proof fn law_ends_count_once(node: ActionNode, m: IsomorphismModel, turn: Option<u8>)
    requires
        node.terminal,
    ensures
        ({
            let c = count::nodes_of(node, m, turn, false);
            c.total == 1 && c.terminal == 1 && c.player == 0 && c.chance == 0 && c.action_tree == 1
        }),
{
}

/// A player's node counts once for itself, and beside that for what follows its actions: nothing is
/// left out and nothing counted twice.
pub proof fn law_players_count_their_actions(node: ActionNode, m: IsomorphismModel, turn: Option<u8>)
    requires
        !node.terminal,
        !node.chance,
    ensures
        ({
            let c = count::nodes_of(node, m, turn, false);
            let below = Seq::new(
                node.children@.len(),
                |i: int| count::nodes_of(node.children@[i], m, turn, false),
            );
            let sum = added(below, node.children@.len() as int);
            &&& c.total == 1 + sum.total
            &&& c.player == 1 + sum.player
            &&& c.chance == sum.chance
            &&& c.terminal == sum.terminal
            &&& c.action_tree == 1 + sum.action_tree
        }),
{
    lemma_children(node, m, turn, node.children@.len() as int);
}

proof fn lemma_children(node: ActionNode, m: IsomorphismModel, turn: Option<u8>, k: int)
    requires
        0 <= k <= node.children@.len(),
    ensures
        added(
            Seq::new(
                node.children@.len(),
                |i: int| count::nodes_of(node.children@[i], m, turn, false),
            ),
            k,
        ) == count::nodes_of_children(node, m, turn, k),
    decreases k,
{
    if k > 0 {
        lemma_children(node, m, turn, k - 1);
    }
}

/// The node that follows a card: the player who acts once the card is dealt, with what follows.
pub open spec fn after_card(node: ActionNode) -> ActionNode {
    ActionNode { chance: false, ..node }
}

/// Once its card is dealt, a node where a card comes counts as the player's node that follows.
proof fn lemma_after_card(node: ActionNode, m: IsomorphismModel, turn: Option<u8>)
    ensures
        count::nodes_of(node, m, turn, true) == count::nodes_of(after_card(node), m, turn, false),
{
    let other = after_card(node);
    lemma_children(node, m, turn, node.children@.len() as int);
    lemma_children(other, m, turn, node.children@.len() as int);
    assert(node.children == other.children);
}

/// After a turn card, a node where the river comes counts once for itself, and beside that the node
/// that follows counts once for every river card that stands for some card off the board. It is
/// visited for all rivers together.
pub proof fn law_rivers_are_dealt_out(node: ActionNode, m: IsomorphismModel, turn: u8)
    requires
        m.well_formed(),
        !node.terminal,
        node.chance,
    ensures
        river_stand_ins(m, turn).finite(),
        ({
            let c = count::nodes_of(node, m, Some(turn), false);
            let one = count::nodes_of(after_card(node), m, Some(turn), false);
            let rivers = river_stand_ins(m, turn).len();
            &&& c.total - 1 == one.total * rivers
            &&& c.player == one.player * rivers
            &&& c.chance - 1 == one.chance * rivers
            &&& c.terminal == one.terminal * rivers
            &&& c.action_tree - 1 == one.action_tree
        }),
{
    lemma_rivers(m, turn);
    lemma_after_card(node, m, Some(turn));
}

proof fn lemma_by_turn(node: ActionNode, m: IsomorphismModel, k: int)
    requires
        0 <= k <= m.turn_cards(52).len(),
    ensures
        added(
            Seq::new(
                m.turn_cards(52).len(),
                |i: int|
                    count::nodes_of(after_card(node), m, Some(m.turn_cards(52)[i]), false),
            ),
            k,
        ) == count::nodes_by_turn(node, m, k),
    decreases k,
{
    if k > 0 {
        lemma_by_turn(node, m, k - 1);
        lemma_after_card(node, m, Some(m.turn_cards(52)[k - 1]));
    }
}

/// Where no turn is dealt, a node where it comes counts once for itself, and beside that the node
/// that follows counts once for each turn card that stands for some card off the flop: there is a
/// list of those cards, each of them in it once, over which the numbers after the cards add up.
pub proof fn law_turns_are_dealt_out(node: ActionNode, m: IsomorphismModel) -> (turns: Seq<u8>)
    requires
        m.well_formed(),
        !node.terminal,
        node.chance,
    ensures
        forall|i: int, j: int| 0 <= i < j < turns.len() ==> #[trigger] turns[i] != #[trigger] turns[j],
        forall|r: int|
            #[trigger] turn_stand_ins(m).contains(r) <==> exists|i: int|
                0 <= i < turns.len() && #[trigger] turns[i] == r,
        turn_stand_ins(m).finite(),
        turn_stand_ins(m).len() == turns.len(),
        ({
            let c = count::nodes_of(node, m, None, false);
            let after = Seq::new(
                turns.len(),
                |i: int| count::nodes_of(after_card(node), m, Some(turns[i]), false),
            );
            let sum = added(after, turns.len() as int);
            &&& c.total - 1 == sum.total
            &&& c.player == sum.player
            &&& c.chance - 1 == sum.chance
            &&& c.terminal == sum.terminal
            &&& c.action_tree - 1 == sum.action_tree
        }),
{
    let turns = m.turn_cards(52);
    lemma_turns(m);
    tree::law_turn_representatives(m, 0);
    lemma_by_turn(node, m, turns.len() as int);
    turns
}

} // verus!
