//! What holds of the suits' classes.

use vstd::prelude::*;

use crate::ieee::Single;
use crate::tree;
use crate::tree::CardConfig;

verus! {

/// The weight of a combo is that of the combo with two suits exchanged.
proof fn lemma_alike(w: Seq<Single>, s: int, t: int, a: int, b: int)
    requires
        tree::alike(w, s, t),
        0 <= a < 52,
        0 <= b < 52,
        a != b,
    ensures
        tree::weight_of(w, a, b).same(
            tree::weight_of(w, tree::exchanged(a, s, t), tree::exchanged(b, s, t)),
        ),
{
    if a < b {
        assert(tree::row_alike(w, a, s, t));
    } else {
        assert(tree::row_alike(w, b, s, t));
        assert(tree::weight_of(w, b, a).same(
            tree::weight_of(w, tree::exchanged(b, s, t), tree::exchanged(a, s, t)),
        ));
    }
}

proof fn lemma_exchanged(card: int, s: int, t: int)
    requires
        0 <= card < 52,
        0 <= s < 4,
        0 <= t < 4,
    ensures
        0 <= tree::exchanged(card, s, t) < 52,
        tree::exchanged(tree::exchanged(card, s, t), s, t) == card,
        tree::exchanged(card, s, t) == tree::exchanged(card, t, s),
{
}

/// It does not matter in which order two suits are named.
proof fn lemma_symmetric(w: Seq<Single>, s: int, t: int)
    requires
        0 <= s < 4,
        0 <= t < 4,
        tree::alike(w, s, t),
    ensures
        tree::alike(w, t, s),
{
    assert forall|a: int| 0 <= a < 52 implies #[trigger] tree::row_alike(w, a, t, s) by {
        assert forall|b: int| a < b < 52 implies (#[trigger] tree::weight_of(w, a, b)).same(
            tree::weight_of(w, tree::exchanged(a, t, s), tree::exchanged(b, t, s)),
        ) by {
            lemma_exchanged(a, s, t);
            lemma_exchanged(b, s, t);
            lemma_alike(w, s, t, a, b);
        }
    }
}

/// Two suits that are alike to a third one are alike.
proof fn lemma_transitive(w: Seq<Single>, s: int, t: int, u: int)
    requires
        0 <= s < 4,
        0 <= t < 4,
        0 <= u < 4,
        s != t,
        t != u,
        s != u,
        tree::alike(w, s, t),
        tree::alike(w, t, u),
    ensures
        tree::alike(w, s, u),
{
    assert forall|a: int| 0 <= a < 52 implies #[trigger] tree::row_alike(w, a, s, u) by {
        assert forall|b: int| a < b < 52 implies (#[trigger] tree::weight_of(w, a, b)).same(
            tree::weight_of(w, tree::exchanged(a, s, u), tree::exchanged(b, s, u)),
        ) by {
            lemma_three(a, s, t, u);
            lemma_three(b, s, t, u);
            let a1 = tree::exchanged(a, s, t);
            let b1 = tree::exchanged(b, s, t);
            let a2 = tree::exchanged(a1, t, u);
            let b2 = tree::exchanged(b1, t, u);
            lemma_apart(a, b, s, t);
            lemma_apart(a1, b1, t, u);
            lemma_alike(w, s, t, a, b);
            lemma_alike(w, t, u, a1, b1);
            lemma_alike(w, s, t, a2, b2);
        }
    }
}

proof fn lemma_apart(a: int, b: int, s: int, t: int)
    requires
        0 <= a < 52,
        0 <= b < 52,
        a != b,
        0 <= s < 4,
        0 <= t < 4,
    ensures
        tree::exchanged(a, s, t) != tree::exchanged(b, s, t),
        0 <= tree::exchanged(a, s, t) < 52,
        0 <= tree::exchanged(b, s, t) < 52,
{
    lemma_exchanged(a, s, t);
    lemma_exchanged(b, s, t);
}

/// Exchanging two suits is three exchanges with a third one.
proof fn lemma_three(card: int, s: int, t: int, u: int)
    requires
        0 <= card < 52,
        0 <= s < 4,
        0 <= t < 4,
        0 <= u < 4,
        s != t,
        t != u,
        s != u,
    ensures
        tree::exchanged(tree::exchanged(tree::exchanged(card, s, t), t, u), s, t) == tree::exchanged(
            card,
            s,
            u,
        ),
{
}

/// Both ranges treat two suits alike: the two in either order, and across a third one.
proof fn lemma_both(oop: Seq<Single>, ip: Seq<Single>, s: int, t: int, u: int)
    requires
        0 <= s < 4,
        0 <= t < 4,
        0 <= u < 4,
        s != t,
        t != u,
        s != u,
    ensures
        tree::both_alike(oop, ip, s, t) && tree::both_alike(oop, ip, t, u) ==> tree::both_alike(
            oop,
            ip,
            s,
            u,
        ),
        tree::both_alike(oop, ip, s, t) <==> tree::both_alike(oop, ip, t, s),
{
    if tree::both_alike(oop, ip, s, t) && tree::both_alike(oop, ip, t, u) {
        lemma_transitive(oop, s, t, u);
        lemma_transitive(ip, s, t, u);
    }
    if tree::both_alike(oop, ip, s, t) {
        lemma_symmetric(oop, s, t);
        lemma_symmetric(ip, s, t);
    }
    if tree::both_alike(oop, ip, t, s) {
        lemma_symmetric(oop, t, s);
        lemma_symmetric(ip, t, s);
    }
}

proof fn lemma_first(oop: Seq<Single>, ip: Seq<Single>, s: int)
    requires
        0 <= s < 4,
    ensures
        tree::first(|t: int| tree::both_alike(oop, ip, t, s), 0, s) == (if s > 0 && tree::both_alike(
            oop,
            ip,
            0,
            s,
        ) {
            0
        } else if s > 1 && tree::both_alike(oop, ip, 1, s) {
            1
        } else if s > 2 && tree::both_alike(oop, ip, 2, s) {
            2
        } else {
            s
        }),
{
    reveal_with_fuel(tree::first, 5);
}

/// Two suits are in the same class exactly where both ranges treat them alike.
pub proof fn law_classes_are_of_like_suits(oop: Seq<Single>, ip: Seq<Single>, s: int, t: int)
    requires
        0 <= s < 4,
        0 <= t < 4,
        s != t,
    ensures
        tree::class_of(oop, ip, s) == tree::class_of(oop, ip, t) <==> tree::both_alike(oop, ip, s, t),
        0 <= tree::class_of(oop, ip, s) < 4,
{
    reveal_with_fuel(tree::class_of, 5);
    reveal_with_fuel(tree::fresh, 5);
    lemma_first(oop, ip, 1);
    lemma_first(oop, ip, 2);
    lemma_first(oop, ip, 3);
    lemma_both(oop, ip, 0, 1, 2);
    lemma_both(oop, ip, 0, 2, 1);
    lemma_both(oop, ip, 1, 0, 2);
    lemma_both(oop, ip, 0, 1, 3);
    lemma_both(oop, ip, 0, 3, 1);
    lemma_both(oop, ip, 1, 0, 3);
    lemma_both(oop, ip, 0, 2, 3);
    lemma_both(oop, ip, 0, 3, 2);
    lemma_both(oop, ip, 2, 0, 3);
    lemma_both(oop, ip, 1, 2, 3);
    lemma_both(oop, ip, 1, 3, 2);
    lemma_both(oop, ip, 2, 1, 3);
    lemma_both(oop, ip, 3, 0, 1);
    lemma_both(oop, ip, 3, 1, 0);
    lemma_both(oop, ip, 3, 2, 0);
}

/// Whether no weight of a range changes where two suits are exchanged, whichever two cards it is of.
pub open spec fn keeps_range(w: Seq<Single>, s: int, t: int) -> bool {
    forall|a: int, b: int|
        0 <= a < 52 && 0 <= b < 52 && a != b ==> (#[trigger] tree::weight_of(w, a, b)).same(
            tree::weight_of(w, tree::exchanged(a, s, t), tree::exchanged(b, s, t)),
        )
}

/// Whether a board has the same cards where two suits are exchanged.
pub open spec fn keeps_board(board: Seq<u8>, s: int, t: int) -> bool {
    forall|c: int|
        0 <= c < 64 ==> (#[trigger] tree::among(board, c) <==> tree::among(
            board,
            tree::exchanged(c, s, t),
        ))
}

/// Whether exchanging two suits changes neither player's range nor a board.
pub open spec fn interchangeable(config: CardConfig, board: Seq<u8>, s: int, t: int) -> bool {
    &&& keeps_range(config.range@[0].weights@, s, t)
    &&& keeps_range(config.range@[1].weights@, s, t)
    &&& keeps_board(board, s, t)
}

proof fn lemma_keeps_range(w: Seq<Single>, s: int, t: int)
    ensures
        tree::alike(w, s, t) <==> keeps_range(w, s, t),
{
    if tree::alike(w, s, t) {
        assert forall|a: int, b: int| 0 <= a < 52 && 0 <= b < 52 && a != b implies (
        #[trigger] tree::weight_of(w, a, b)).same(
            tree::weight_of(w, tree::exchanged(a, s, t), tree::exchanged(b, s, t)),
        ) by {
            lemma_alike(w, s, t, a, b);
        }
    }
}

proof fn lemma_keeps_board(board: Seq<u8>, s: int, t: int)
    requires
        0 <= s < 4,
        0 <= t < 4,
    ensures
        tree::same_ranks(board, s, t) <==> keeps_board(board, s, t),
{
    if tree::same_ranks(board, s, t) {
        assert forall|c: int| 0 <= c < 64 implies (#[trigger] tree::among(board, c) <==> tree::among(
            board,
            tree::exchanged(c, s, t),
        )) by {
            let r = c / 4;
            assert(tree::among(board, 4 * r + s) <==> tree::among(board, 4 * r + t));
        }
    }
    if keeps_board(board, s, t) {
        assert forall|r: int| 0 <= r < 16 implies (#[trigger] tree::among(board, 4 * r + s)
            <==> tree::among(board, 4 * r + t)) by {
            let c = 4 * r + s;
            assert(tree::exchanged(c, s, t) == 4 * r + t);
            assert(tree::among(board, c) <==> tree::among(board, tree::exchanged(c, s, t)));
        }
    }
}

proof fn lemma_interchangeable(config: CardConfig, board: Seq<u8>, s: int, t: int)
    requires
        0 <= s < 4,
        0 <= t < 4,
        s != t,
    ensures
        ({
            let m = tree::isomorphism_of(config);
            interchangeable(config, board, s, t) <==> tree::same_ranks(board, s, t) && m.class[s]
                == m.class[t]
        }),
{
    let oop = config.range@[0].weights@;
    let ip = config.range@[1].weights@;
    law_classes_are_of_like_suits(oop, ip, s, t);
    law_classes_are_of_like_suits(oop, ip, t, s);
    lemma_keeps_range(oop, s, t);
    lemma_keeps_range(ip, s, t);
    lemma_keeps_board(board, s, t);
}

proof fn lemma_lowest(p: spec_fn(int) -> bool, k: int, n: int)
    requires
        k <= n,
    ensures
        k <= tree::first(p, k, n) <= n,
        tree::first(p, k, n) < n ==> p(tree::first(p, k, n)),
        forall|j: int| k <= j < tree::first(p, k, n) ==> !(#[trigger] p(j)),
    decreases n - k,
{
    if k < n && !p(k) {
        lemma_lowest(p, k + 1, n);
    }
}

/// Whether suit `s` may stand for suit `t` on the turn: no turn is dealt yet, and exchanging the two
/// changes neither the flop nor a range.
pub open spec fn alike_on_turn(config: CardConfig, s: int, t: int) -> bool {
    config.turn is None && interchangeable(config, config.flop@, s, t)
}

/// Whether suit `s` may stand for suit `t` on the river: exchanging the two changes neither the
/// board with the turn card nor a range, nor the flop where the game starts there.
pub open spec fn alike_on_river(config: CardConfig, turn: u8, s: int, t: int) -> bool {
    &&& config.turn is None ==> keeps_board(config.flop@, s, t)
    &&& interchangeable(config, config.flop@.push(turn), s, t)
}

/// A turn card is stood for by the card of the same rank in the lowest suit that may be exchanged
/// for its own with flop and ranges as they are. Where no lower suit may, it stands for itself.
pub proof fn law_turn_cards_fold_between_like_suits(config: CardConfig, card: int)
    requires
        0 <= card < 52,
    ensures
        ({
            let r = tree::isomorphism_of(config).turn_card(card);
            let s = card % 4;
            &&& r / 4 == card / 4
            &&& r != card ==> r % 4 < s && alike_on_turn(config, s, r % 4)
            &&& forall|u: int|
                0 <= u < r % 4 && u < s ==> !(#[trigger] alike_on_turn(config, s, u))
            &&& r == card <==> forall|u: int|
                0 <= u < s ==> !(#[trigger] alike_on_turn(config, s, u))
        }),
{
    let m = tree::isomorphism_of(config);
    let s = card % 4;
    let p = |t: int| m.turn_folds(s, t);
    let t = tree::first(p, 0, s);
    lemma_lowest(p, 0, s);
    assert(m.turn_card(card) % 4 == t);
    assert forall|u: int| 0 <= u < s implies (#[trigger] alike_on_turn(config, s, u)) == p(u) by {
        lemma_interchangeable(config, config.flop@, s, u);
    }
    if t < s {
        assert(alike_on_turn(config, s, t));
    }
}

/// A river card is stood for by the card of the same rank in the lowest suit that may be exchanged
/// for its own with the board, the turn card and both ranges as they are. Where no lower suit may,
/// it stands for itself.
pub proof fn law_river_cards_fold_between_like_suits(config: CardConfig, turn: u8, card: int)
    requires
        0 <= card < 52,
    ensures
        ({
            let r = tree::isomorphism_of(config).river_card(turn, card);
            let s = card % 4;
            &&& r / 4 == card / 4
            &&& r != card ==> r % 4 < s && alike_on_river(config, turn, s, r % 4)
            &&& forall|u: int|
                0 <= u < r % 4 && u < s ==> !(#[trigger] alike_on_river(config, turn, s, u))
            &&& r == card <==> forall|u: int|
                0 <= u < s ==> !(#[trigger] alike_on_river(config, turn, s, u))
        }),
{
    let m = tree::isomorphism_of(config);
    let s = card % 4;
    let p = |t: int| m.river_folds(turn, s, t);
    let t = tree::first(p, 0, s);
    lemma_lowest(p, 0, s);
    assert(m.river_card(turn, card) % 4 == t);
    assert forall|u: int| 0 <= u < s implies (#[trigger] alike_on_river(config, turn, s, u)) == p(
        u,
    ) by {
        lemma_interchangeable(config, config.flop@.push(turn), s, u);
        lemma_keeps_board(config.flop@, s, u);
    }
    if t < s {
        assert(alike_on_river(config, turn, s, t));
    }
}

} // verus!
