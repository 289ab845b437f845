use pokergoat_solver::cards::{card_from_str, combo_index, to_lib};
use pokergoat_solver::count::{count_nodes, ActionNode, NodeCount};
use pokergoat_solver::ieee::{Double, Single};
use pokergoat_solver::job::turn_count;
use pokergoat_solver::sizes::{sizes_to_string, whole_size};
use pokergoat_solver::tree::{CardConfig, Isomorphism, RangeWeights};

fn double(v: f64) -> Double {
    Double { bits: v.to_bits() }
}

/// All pairs, each with weight one.
fn pairs() -> RangeWeights {
    let mut weights = vec![Single { bits: 0 }; 1326];
    for a in 0..52u8 {
        for b in (a + 1)..52 {
            if a / 4 == b / 4 {
                weights[combo_index(a, b).unwrap() as usize] = Single { bits: 1.0f32.to_bits() };
            }
        }
    }
    RangeWeights { weights }
}

fn lib(name: &str) -> u8 {
    to_lib(card_from_str(name).unwrap())
}

fn flop(cards: [&str; 3]) -> CardConfig {
    CardConfig {
        range: [pairs(), pairs()],
        flop: [lib(cards[0]), lib(cards[1]), lib(cards[2])],
        turn: None,
        river: None,
    }
}

fn terminal() -> ActionNode {
    ActionNode { terminal: true, chance: false, children: vec![] }
}

fn player(children: Vec<ActionNode>) -> ActionNode {
    ActionNode { terminal: false, chance: false, children }
}

/// A node where a card is dealt: its children are those of the player node that follows.
fn chance(children: Vec<ActionNode>) -> ActionNode {
    ActionNode { terminal: false, chance: true, children }
}

#[test]
fn tiny_tree_node_count() {
    // Check-check, and a bet that is folded to or called.
    let tree = player(vec![player(vec![terminal()]), player(vec![terminal(), terminal()])]);
    let mut config = flop(["2c", "3d", "4h"]);
    config.turn = Some(lib("8s"));
    config.river = Some(lib("9c"));
    let iso = Isomorphism::new(&config);
    let count = count_nodes(&tree, &iso, config.turn).unwrap();
    assert_eq!(count.total, 6);
    assert_eq!(count.player, 3);
    assert_eq!(count.terminal, 3);
    assert_eq!(count.chance, 0);
}

#[test]
fn chance_nodes_multiply() {
    // On the rainbow flop 49 turns, and after each of them 48 rivers.
    let river = chance(vec![terminal()]);
    let turn = chance(vec![river]);
    let iso = Isomorphism::new(&flop(["As", "7d", "2c"]));
    let count = count_nodes(&turn, &iso, None).unwrap();
    let rivers: u64 = iso
        .turn_representatives()
        .iter()
        .map(|t| iso.river_representatives(*t).len() as u64)
        .sum();
    assert_eq!(count.chance, 1 + 49);
    assert_eq!(count.player, 49 + rivers);
    assert_eq!(count.terminal, rivers);
    assert_eq!(count.total, count.chance + count.player + count.terminal);
    assert_eq!(count.action_tree, 1 + 49 * 4);
    let fixed = count_nodes(&chance(vec![terminal()]), &iso, Some(lib("Kh"))).unwrap();
    let n = iso.river_representatives(lib("Kh")).len() as u64;
    assert_eq!(
        fixed,
        NodeCount { total: 1 + 2 * n, player: n, chance: 1, terminal: n, action_tree: 3 }
    );
}

#[test]
fn bet_size_strings() {
    let sizes = |v: &[f64]| {
        let shown: Vec<String> = v.iter().map(|x| format!("{x}")).collect();
        sizes_to_string(&v.iter().map(|x| double(*x)).collect(), &shown)
    };
    assert_eq!(sizes(&[33.0, 75.0]), "33%,75%");
    assert_eq!(sizes(&[]), "");
    assert_eq!(sizes(&[12.5]), "12.5%");
    assert_eq!(sizes(&[-5.0, -0.0, -1.5, 1e300]), "-5%,0%,-1.5%,9223372036854775807%");
    assert_eq!(sizes(&[10000.0, 0.1, 1e-10, 66.66666666666667]), "10000%,0.1%,0%,66.66666666666667%");
}

#[test]
fn sizes_count_as_integers_within_a_billionth() {
    let mut values: Vec<f64> = vec![1e-9, 1e-10, 0.5, 0.49, 1.0 - 1e-9, 1.0 - 9e-10, 1.5, 9999.5];
    for n in [1u32, 2, 3, 33, 127, 1024, 4097, 9999, 10000] {
        for k in -40i64..40 {
            values.push(f64::from_bits(((n as f64).to_bits() as i64 + k * 1_000) as u64));
            values.push(f64::from_bits(((n as f64).to_bits() as i64 + k * 60_000) as u64));
            values.push(n as f64 + k as f64 * 5e-11);
        }
    }
    for e in 0..1100 {
        values.push(f64::from_bits((e * 2 + 1) << 51));
        values.push(f64::from_bits(((e + 950) << 52) + 0x8_1234_5678_9ABC));
        values.push(f64::from_bits(((e + 950) << 52) + 1));
    }
    values.extend([0.0, 4503599627370495.5, 9.2e18, 9223372036854775808.0, 1e19, f64::MAX]);
    values.extend([f64::INFINITY, f64::NAN]);
    for v in values {
        for v in [v, -v] {
            let expected = if (v - v.round()).abs() < 1e-9 { Some(v.round() as i64) } else { None };
            assert_eq!(whole_size(double(v)), expected, "{v:e}");
        }
    }
}

#[test]
fn monotone_flop_has_isomorphic_turn_suits() {
    let iso = Isomorphism::new(&flop(["As", "Ks", "Qs"]));
    let reprs = iso.turn_representatives();
    assert_eq!(reprs.len(), 23, "representatives: {}", reprs.len());
    assert_eq!(turn_count(&iso, None), 23);
    assert_eq!(turn_count(&iso, Some(0)), 0);
}

#[test]
fn rainbow_flop_has_no_turn_isomorphism_when_ranges_symmetric() {
    let iso = Isomorphism::new(&flop(["As", "7d", "2c"]));
    assert_eq!(iso.turn_representatives().len(), 49);
}

#[test]
fn representatives_keep_the_rank() {
    let iso = Isomorphism::new(&flop(["As", "Ks", "Qs"]));
    for card in 0..52u8 {
        let r = iso.turn_representative(card);
        assert!(r <= card);
        assert_eq!(r / 4, card / 4);
        assert_eq!(iso.turn_representative(r), r);
        assert_eq!(iso.turn_representatives().contains(&r), ![51, 47, 43].contains(&r));
    }
    // The spade turn leaves three suits alike; another turn leaves two.
    assert_eq!(iso.river_representative(lib("2s"), lib("Th")), lib("Tc"));
    assert_eq!(iso.river_representative(lib("2d"), lib("Th")), lib("Tc"));
    assert_eq!(iso.river_representative(lib("2d"), lib("Td")), lib("Td"));
}

#[test]
fn ranges_can_break_an_isomorphism() {
    let mut config = flop(["As", "Ks", "Qs"]);
    let index = combo_index(lib("7h"), lib("7d")).unwrap() as usize;
    config.range[1].weights[index] = Single { bits: 0.5f32.to_bits() };
    let iso = Isomorphism::new(&config);
    assert_eq!(iso.turn_representative(lib("Th")), lib("Td"));
    assert_eq!(iso.turn_representative(lib("Td")), lib("Td"));
    // Zeros of either sign are alike.
    let mut config = flop(["As", "Ks", "Qs"]);
    let index = combo_index(lib("7h"), lib("6d")).unwrap() as usize;
    config.range[1].weights[index] = Single { bits: (-0.0f32).to_bits() };
    assert_eq!(Isomorphism::new(&config).turn_representatives().len(), 23);
}

#[test]
fn lists_are_compared_without_order() {
    assert!(Isomorphism::verify(&[1, 2, 3], &[3, 1, 2]));
    assert!(!Isomorphism::verify(&[1, 2, 3], &[3, 1, 2, 2]));
    assert!(!Isomorphism::verify(&[1, 1, 2], &[1, 2, 2]));
    assert!(Isomorphism::verify(&[], &[]));
}

#[test]
fn river_lists_hold_every_stand_in() {
    for names in [["As", "7d", "2c"], ["As", "Ks", "Qs"], ["As", "Kh", "Qs"]] {
        let iso = Isomorphism::new(&flop(names));
        let on: Vec<u8> = names.iter().map(|n| lib(n)).collect();
        for turn in (0..52u8).filter(|c| !on.contains(c)) {
            let list = iso.river_representatives(turn);
            assert!(list.windows(2).all(|w| w[0] < w[1]));
            for card in 0..52u8 {
                let dealt = on.contains(&card) || card == turn;
                let own = iso.river_representative(turn, card) == card;
                assert_eq!(list.contains(&card), !dealt && own);
                assert!(dealt || list.contains(&iso.river_representative(turn, card)));
            }
        }
    }
}
