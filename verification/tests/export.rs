use pokergoat_solver::blob::{
    Blob, BlobHeader, ACTION_ALLIN, ACTION_BET, ACTION_CALL, ACTION_CHECK, ACTION_FOLD, ACTION_RAISE,
    CHILD_IMPOSSIBLE, CHILD_NOT_STORED, FLAG_HAS_EV, FLAG_PRUNED, KIND_CHANCE, KIND_PLAYER,
    KIND_TERMINAL,
};
use pokergoat_solver::cards::{card_from_str, combo_index, from_lib, to_lib};
use pokergoat_solver::error::Error;
use pokergoat_solver::export::{
    action_to_blob, blob_path, compress, decompress, stored_file, Action, BlobKey, ExportOptions,
    ExportSummary, Exporter, FileInfo, GameNode, Root, Solution, Weights,
    DEFAULT_PRUNE_EPSILON,
};
use pokergoat_solver::ieee::{Double, Single};
use pokergoat_solver::tree::{CardConfig, Isomorphism, RangeWeights};

fn single(v: f32) -> Single {
    Single { bits: v.to_bits() }
}

fn singles(values: &[f32]) -> Vec<Single> {
    values.iter().map(|v| single(*v)).collect()
}

fn weights(values: &[f32]) -> Weights {
    Weights::new(&singles(values))
}

/// What was found for two hands.
fn solution(strategy: &[f32], ev_chips: &[f32]) -> Solution {
    Solution::new(&singles(strategy), Some(&singles(ev_chips)), strategy.len() / 2, 2).unwrap()
}

fn lib(name: &str) -> u8 {
    to_lib(card_from_str(name).unwrap())
}

fn board(names: &[&str]) -> Vec<u8> {
    names.iter().map(|n| lib(n)).collect()
}

fn header(names: &[&str]) -> BlobHeader {
    BlobHeader {
        scenario_id: 42,
        template_id: 7,
        solver_version: 0,
        board: names.iter().map(|n| card_from_str(n).unwrap()).collect(),
        street: (names.len() - 3) as u8,
        starting_pot: single(10.0),
        effective_stack: single(10.0),
        rake_percent: single(0.0),
        rake_cap: single(0.0),
        exploitability_pct: single(0.0),
        iterations: 20,
    }
}

fn options(names: &[&str]) -> ExportOptions {
    ExportOptions::new(
        header(names),
        false,
        Double { bits: DEFAULT_PRUNE_EPSILON },
        true,
        "out".to_string(),
    )
}

/// All pairs, each with weight one.
fn pairs() -> RangeWeights {
    let mut weights = vec![Single { bits: 0 }; 1326];
    for a in 0..52u8 {
        for b in (a + 1)..52 {
            if a / 4 == b / 4 {
                weights[combo_index(a, b).unwrap() as usize] = single(1.0);
            }
        }
    }
    RangeWeights { weights }
}

fn iso(names: &[&str]) -> Isomorphism {
    Isomorphism::new(&CardConfig {
        range: [pairs(), pairs()],
        flop: [lib(names[0]), lib(names[1]), lib(names[2])],
        turn: names.get(3).map(|n| lib(n)),
        river: names.get(4).map(|n| lib(n)),
    })
}

/// Two hands for each player.
fn root(names: &[&str]) -> Root {
    Root {
        private_cards: [
            vec![(lib("Th"), lib("Td")), (lib("9h"), lib("9d"))],
            vec![(lib("8h"), lib("8d")), (lib("6h"), lib("6d"))],
        ],
        weights: [singles(&[1.0, 1.0]), singles(&[0.5, 0.25])],
        board: board(names),
    }
}

/// The cards that are not on a board, as bits.
fn rest(cards: &[u8]) -> u64 {
    let mut set = (1u64 << 52) - 1;
    for c in cards {
        set &= !(1u64 << c);
    }
    set
}

fn folded() -> GameNode {
    GameNode::Terminal { bets: [100, 0] }
}

/// A player who checks or bets, after which the game is over.
fn act(player: u8, board_len: usize, reaching: &[f32]) -> GameNode {
    GameNode::Player {
        bets: [0, 0],
        board_len,
        player,
        weights: weights(reaching),
        actions: vec![Action::Check, Action::Bet(183)],
        solution: Some(solution(&[0.25, 1.0, 0.75, 0.0], &[150.0, -225.0, 0.0, 400.0])),
        children: vec![folded(), folded()],
    }
}

/// Deals a card: the cards that the engine offers, and a subtree for each that is stored.
fn deal(exporter: &Exporter, on: &[u8], offered: &[u8], subtree: &dyn Fn(u8) -> GameNode) -> GameNode {
    let possible = rest(on);
    let actions: Vec<Action> = offered.iter().map(|c| Action::Chance(*c)).collect();
    let (cards, _) = exporter.branches(&on.to_vec(), possible, &actions, true);
    let children = cards.iter().map(|c| subtree(*c)).collect();
    GameNode::Chance { bets: [50, 50], board: on.to_vec(), possible, actions, children }
}

fn finish(exporter: &Exporter) -> (ExportSummary, Vec<Vec<u8>>) {
    let mut infos: Vec<FileInfo> = Vec::new();
    let mut contents = Vec::new();
    for key in exporter.keys() {
        let (info, content) = exporter.pack(key).unwrap();
        infos.push(info);
        contents.push(content);
    }
    (exporter.summary(infos), contents)
}

#[test]
fn paths_follow_the_spec() {
    assert_eq!(blob_path(BlobKey::Start, 0).unwrap(), "flop.bin");
    assert_eq!(blob_path(BlobKey::Start, 1).unwrap(), "turn.bin");
    assert_eq!(blob_path(BlobKey::Start, 2).unwrap(), "river.bin");
    assert_eq!(blob_path(BlobKey::Turn(48), 0).unwrap(), "turn/As.bin");
    assert_eq!(
        blob_path(BlobKey::River(48, 3), 0).unwrap(),
        "river/As/2c.bin"
    );
}

#[test]
fn paths_need_cards_and_are_distinct() {
    assert_eq!(blob_path(BlobKey::Turn(52), 0), Err(Error::CardOutOfRange(52)));
    assert_eq!(blob_path(BlobKey::River(60, 99), 0), Err(Error::CardOutOfRange(60)));
    assert_eq!(blob_path(BlobKey::River(6, 99), 0), Err(Error::CardOutOfRange(99)));
    let mut paths = vec![blob_path(BlobKey::Start, 0).unwrap()];
    for t in 0..52 {
        paths.push(blob_path(BlobKey::Turn(t), 0).unwrap());
        for r in 0..52 {
            paths.push(blob_path(BlobKey::River(t, r), 0).unwrap());
        }
    }
    let n = paths.len();
    paths.sort();
    paths.dedup();
    assert_eq!(paths.len(), n);
}

#[test]
fn brotli_round_trip() {
    let data: Vec<u8> = (0..10_000u32).map(|v| (v % 251) as u8).collect();
    let packed = compress(&data).unwrap();
    assert!(packed.len() < data.len());
    assert_eq!(decompress(&packed).unwrap(), data);
}

#[test]
fn brotli_packs_anything_and_refuses_junk() {
    for n in [0usize, 1, 2, 4096, 4097, 100_000] {
        let data: Vec<u8> = (0..n).map(|v| (v * v % 257 % 256) as u8).collect();
        let packed = compress(&data).unwrap();
        assert_ne!(packed, data);
        assert_eq!(decompress(&packed).unwrap(), data);
        if n > 10 {
            assert_eq!(decompress(&packed[..packed.len() / 2]), Err(Error::Decompression));
        }
    }
    assert_eq!(decompress(&[]), Err(Error::Decompression));
    assert_eq!(decompress(&[0xFF; 40]), Err(Error::Decompression));
}

#[test]
fn files_are_described_by_what_packing_made() {
    let file = |packed| stored_file("flop.bin".to_string(), 7, vec![1, 2, 3], packed);
    let info = |path: &str, bytes_stored| FileInfo {
        path: path.to_string(),
        nodes: 7,
        bytes_raw: 3,
        bytes_stored,
    };
    assert_eq!(file(None), Ok((info("flop.bin", 3), vec![1, 2, 3])));
    assert_eq!(file(Some(Ok(vec![9]))), Ok((info("flop.bin.br", 1), vec![9])));
    assert_eq!(file(Some(Err(Error::Compression))), Err(Error::Compression));
}

#[test]
fn action_amounts_are_in_bb() {
    let action = action_to_blob(&Action::Bet(183));
    assert_eq!(action.kind, ACTION_BET);
    assert!((f32::from_bits(action.amount.bits) - 1.83).abs() < 1e-6);
    assert_eq!(action_to_blob(&Action::Fold).kind, ACTION_FOLD);
    assert_eq!(f32::from_bits(action_to_blob(&Action::Call).amount.bits), 0.0);
}

#[test]
fn actions_have_kinds() {
    let kind = |a: Action| action_to_blob(&a).kind;
    assert_eq!(kind(Action::Check), ACTION_CHECK);
    assert_eq!(kind(Action::Call), ACTION_CALL);
    assert_eq!(kind(Action::Raise(1)), ACTION_RAISE);
    assert_eq!(kind(Action::AllIn(1)), ACTION_ALLIN);
    assert_eq!(kind(Action::Chance(1)), ACTION_CHECK);
    assert_eq!(kind(Action::Nothing), ACTION_CHECK);
    assert_eq!(action_to_blob(&Action::AllIn(12345)).amount, single(12345f32 / 100.0));
}

#[test]
fn exports_start_from_hands_that_weigh() {
    let names = ["As", "7d", "2c"];
    let mut bad = root(&names);
    bad.private_cards[1][1] = (3, 3);
    let card = from_lib(3);
    assert_eq!(
        Exporter::new(&bad, iso(&names), options(&names)).err(),
        Some(Error::SameCard(card))
    );
    let mut bad = root(&names);
    bad.weights[1] = singles(&[0.0, 0.0]);
    assert_eq!(Exporter::new(&bad, iso(&names), options(&names)).err(), Some(Error::NoReach));
    let mut bad = root(&names);
    bad.weights[0] = singles(&[1.0, -1.5]);
    assert_eq!(Exporter::new(&bad, iso(&names), options(&names)).err(), Some(Error::NoReach));
    // A sum that is no number is not nothing.
    let mut odd = root(&names);
    odd.weights[0][1] = single(f32::NAN);
    let exporter = Exporter::new(&odd, iso(&names), options(&names)).unwrap();
    assert_eq!(exporter.is_pruned(0, &weights(&[0.0, 0.0]), 3), Ok(false));
}

#[test]
fn flop_exports_read_back() {
    let names = ["As", "7d", "2c"];
    let on = board(&names);
    let mut exporter = Exporter::new(&root(&names), iso(&names), options(&names)).unwrap();
    let offered = iso(&names).turn_representatives();
    let tree = GameNode::Player {
        bets: [0, 0],
        board_len: 3,
        player: 0,
        weights: weights(&[1.0, 1.0]),
        actions: vec![Action::Check, Action::AllIn(1000)],
        solution: Some(solution(&[0.7, 0.25, 0.3, 0.75], &[150.0, -225.0, 375.0, 400.0])),
        children: vec![
            deal(&exporter, &on, &offered, &|c| {
                let mut after = on.clone();
                after.push(c);
                GameNode::Player {
                    bets: [0, 0],
                    board_len: 4,
                    player: 1,
                    weights: weights(&[0.5, 0.25]),
                    actions: vec![Action::Check],
                    solution: Some(solution(&[1.0, 1.0], &[1.0, 2.0])),
                    children: vec![GameNode::Chance {
                        bets: [0, 0],
                        board: after.clone(),
                        possible: rest(&after),
                        actions: iso(&names)
                            .river_representatives(c)
                            .iter()
                            .map(|r| Action::Chance(*r))
                            .collect(),
                        children: vec![],
                    }],
                }
            }),
            folded(),
        ],
    };
    assert_eq!(exporter.run(&tree), Ok(0));
    let (summary, contents) = finish(&exporter);
    assert_eq!(summary.node_count, 3 + 49 * 2);
    assert_eq!(summary.files.len(), 50);
    assert_eq!(summary.files[0].path, "flop.bin.br");
    assert_eq!(summary.files[0].nodes, 3);
    assert_eq!(summary.turn_cards.len(), 49);
    assert_eq!(summary.pruned_nodes, 0);
    assert!(summary.warnings.is_empty() && summary.turn_isomorphism.is_empty());
    let mut sorted = summary.turn_cards.clone();
    sorted.sort();
    assert_eq!(summary.turn_cards, sorted);

    let mut raw = 0;
    for (info, content) in summary.files.iter().zip(&contents) {
        let bytes = decompress(content).unwrap();
        assert_eq!(info.bytes_raw, bytes.len() as u64);
        assert_eq!(info.bytes_stored, content.len() as u64);
        raw += bytes.len() as u64;
        let blob = Blob::parse(&bytes).unwrap();
        assert_eq!(blob.nodes.len(), info.nodes as usize);
        if info.path != "flop.bin.br" {
            assert_eq!(blob.header.street, 1);
            let name = &info.path[5..7];
            assert_eq!(info.path, format!("turn/{name}.bin.br"));
            assert_eq!(blob.header.board[3], card_from_str(name).unwrap());
            assert_eq!(blob.nodes[0].strategy.len(), 0);
            assert_eq!(blob.nodes[0].ev.len(), 2);
            let river = &blob.nodes[1];
            assert_eq!(river.kind, KIND_CHANCE);
            assert!(river
                .children
                .iter()
                .all(|&c| c == CHILD_IMPOSSIBLE || c == CHILD_NOT_STORED));
            assert_eq!(river.children.iter().filter(|c| **c == CHILD_NOT_STORED).count(), 48);
        }
    }
    assert_eq!(summary.bytes_raw, raw);

    let blob = Blob::parse(&decompress(&contents[0]).unwrap()).unwrap();
    assert_eq!(blob.header, header(&names));
    assert_eq!(blob.hands[0].len(), 2);
    assert_eq!(
        blob.hands[0][0],
        combo_index(card_from_str("Th").unwrap(), card_from_str("Td").unwrap()).unwrap()
    );
    let first = &blob.nodes[0];
    assert_eq!((first.kind, first.player, first.flags), (KIND_PLAYER, 0, FLAG_HAS_EV));
    assert_eq!(first.children, vec![1, 2]);
    assert_eq!(first.strategy, vec![178, 64]);
    assert_eq!(first.ev, vec![12288, -18431, 30719, 32767]);
    assert_eq!(first.ev_scale, single(4.0f32 / 32767.0));
    assert_eq!(blob.nodes[2].kind, KIND_TERMINAL);
    assert_eq!(blob.nodes[2].invest, [single(1.0), single(0.0)]);
    let chance = &blob.nodes[1];
    assert_eq!(chance.invest, [single(0.5), single(0.5)]);
    assert_eq!(chance.children.len(), 52);
    for card in &blob.header.board {
        assert_eq!(chance.children[*card as usize], CHILD_IMPOSSIBLE);
    }
    assert_eq!(chance.children.iter().filter(|c| **c == 0).count(), 49);
}

#[test]
fn monotone_exports_share_turn_files() {
    let names = ["As", "Ks", "Qs"];
    let on = board(&names);
    let mut exporter = Exporter::new(&root(&names), iso(&names), options(&names)).unwrap();
    let offered = iso(&names).turn_representatives();
    let tree = deal(&exporter, &on, &offered, &|_| folded());
    assert_eq!(exporter.run(&tree), Ok(0));
    let (summary, contents) = finish(&exporter);
    assert!(summary.warnings.is_empty());
    assert_eq!(summary.turn_cards.len(), 23);
    assert_eq!(summary.turn_isomorphism.len(), 26);
    for (card, repr) in &summary.turn_isomorphism {
        assert_ne!(card, repr);
        assert!(summary.turn_cards.contains(repr));
        assert_eq!(card.chars().next(), repr.chars().next());
    }
    let mut sorted = summary.turn_isomorphism.clone();
    sorted.sort();
    assert_eq!(summary.turn_isomorphism, sorted);
    assert_eq!(summary.files.iter().filter(|f| f.path.starts_with("turn/")).count(), 23);
    // A folded card leads where the one that stands for it does.
    let blob = Blob::parse(&decompress(&contents[0]).unwrap()).unwrap();
    for (card, repr) in &summary.turn_isomorphism {
        let slots = &blob.nodes[0].children;
        assert_eq!(
            slots[card_from_str(card).unwrap() as usize],
            slots[card_from_str(repr).unwrap() as usize]
        );
    }
}

#[test]
fn card_slots_lead_to_nodes() {
    let names = ["As", "Ks", "Qs"];
    let on = board(&names);
    let mut o = options(&names);
    o.compress = false;
    let mut exporter = Exporter::new(&root(&names), iso(&names), o).unwrap();
    let offered = iso(&names).turn_representatives();
    let tree = GameNode::Player {
        bets: [0, 0],
        board_len: 3,
        player: 0,
        weights: weights(&[1.0, 1.0]),
        actions: vec![Action::Check, Action::Bet(100)],
        solution: Some(solution(&[0.5, 0.5, 0.5, 0.5], &[1.0, 2.0, 3.0, 4.0])),
        children: vec![
            deal(&exporter, &on, &offered, &|_| act(0, 4, &[1.0, 1.0])),
            deal(&exporter, &on, &offered, &|_| folded()),
        ],
    };
    assert_eq!(exporter.run(&tree), Ok(0));
    let (summary, contents) = finish(&exporter);
    let start = Blob::parse(&contents[0]).unwrap();
    for (chance, slot) in [(1, 0u32), (2, 3)] {
        for card in 0..52u8 {
            let expected = if start.header.board.contains(&card) { CHILD_IMPOSSIBLE } else { slot };
            assert_eq!(start.nodes[chance].children[card as usize], expected);
        }
    }
    for (info, content) in summary.files.iter().zip(&contents).skip(1) {
        assert_eq!(info.nodes, 4);
        let turn = Blob::parse(content).unwrap();
        assert_eq!((turn.nodes[0].kind, turn.nodes[3].kind), (KIND_PLAYER, KIND_TERMINAL));
    }
}

#[test]
fn other_solved_cards_switch_folding_off() {
    let names = ["As", "Ks", "Qs"];
    let on = board(&names);
    let mut exporter = Exporter::new(&root(&names), iso(&names), options(&names)).unwrap();
    let offered: Vec<u8> = (0..52u8).filter(|c| !on.contains(c)).collect();
    let tree = deal(&exporter, &on, &offered, &|_| folded());
    assert_eq!(exporter.run(&tree), Ok(0));
    let (summary, _) = finish(&exporter);
    assert_eq!(
        summary.warnings,
        vec!["수트 동형 표가 엔진 대표 목록과 달라 동형 축약을 끄고 모든 카드를 저장한다"]
    );
    assert_eq!(summary.turn_cards.len(), 49);
    assert!(summary.turn_isomorphism.is_empty());
    assert_eq!(summary.files.len(), 50);
}

/// A flop on which the engine is offered its own cards at one node and all cards at another, in this
/// order.
fn mixed(first_agrees: bool) -> (ExportSummary, Vec<Vec<u8>>) {
    let names = ["As", "Ks", "Qs"];
    let on = board(&names);
    let mut o = options(&names);
    o.compress = false;
    let mut exporter = Exporter::new(&root(&names), iso(&names), o).unwrap();
    let own = iso(&names).turn_representatives();
    let all: Vec<u8> = (0..52u8).filter(|c| !on.contains(c)).collect();
    let mut folding = true;
    let mut children = Vec::new();
    for offered in if first_agrees { [&own, &all] } else { [&all, &own] } {
        let actions: Vec<Action> = offered.iter().map(|c| Action::Chance(*c)).collect();
        let (cards, folds) = exporter.branches(&on, rest(&on), &actions, folding);
        folding = folds;
        children.push(GameNode::Chance {
            bets: [0, 0],
            board: on.clone(),
            possible: rest(&on),
            actions,
            children: cards.iter().map(|_| folded()).collect(),
        });
    }
    let tree = GameNode::Player {
        bets: [0, 0],
        board_len: 3,
        player: 0,
        weights: weights(&[1.0, 1.0]),
        actions: vec![Action::Check, Action::Bet(100)],
        solution: Some(solution(&[0.5; 4], &[1.0; 4])),
        children,
    };
    assert_eq!(exporter.run(&tree), Ok(0));
    finish(&exporter)
}

#[test]
fn folding_that_was_given_up_stays_off() {
    let (summary, contents) = mixed(false);
    assert_eq!((summary.turn_cards.len(), summary.files.len(), summary.warnings.len()), (49, 50, 1));
    assert!(summary.turn_isomorphism.is_empty());
    let blob = Blob::parse(&contents[0]).unwrap();
    for (chance, slot) in [(1, 0u32), (2, 1)] {
        let slots = &blob.nodes[chance].children;
        assert_eq!(slots.iter().filter(|c| **c == slot).count(), 49);
        assert!(!slots.contains(&CHILD_NOT_STORED));
    }
    assert_eq!(summary.node_count, summary.files.iter().map(|f| f.nodes as u64).sum::<u64>());
}

#[test]
fn nodes_that_agreed_keep_their_folding() {
    let (summary, contents) = mixed(true);
    assert_eq!((summary.turn_cards.len(), summary.files.len(), summary.warnings.len()), (49, 50, 1));
    let blob = Blob::parse(&contents[0]).unwrap();
    for chance in [1, 2] {
        let slots = &blob.nodes[chance].children;
        assert!(!slots.contains(&CHILD_NOT_STORED));
        assert_eq!(slots.iter().filter(|c| **c == CHILD_IMPOSSIBLE).count(), 3);
    }
    // Every listed card has a file.
    for card in &summary.turn_cards {
        assert!(summary.files.iter().any(|f| f.path == format!("turn/{card}.bin")));
    }
}

#[test]
fn turn_exports_store_rivers() {
    let names = ["As", "7d", "2c", "Kh"];
    let on = board(&names);
    let mut o = options(&names);
    o.store_river = true;
    let mut exporter = Exporter::new(&root(&names), iso(&names), o).unwrap();
    let offered = iso(&names).river_representatives(lib("Kh"));
    let tree = deal(&exporter, &on, &offered, &|_| act(0, 5, &[1.0, 0.5]));
    assert_eq!(exporter.run(&tree), Ok(0));
    let (summary, contents) = finish(&exporter);
    assert_eq!(summary.files[0].path, "turn.bin.br");
    let rivers = summary.files.iter().filter(|f| f.path.starts_with("river/Kh/")).count();
    assert_eq!(rivers, offered.len());
    assert_eq!(summary.files.len(), 1 + rivers);
    assert!(summary.turn_cards.is_empty());
    assert_eq!(summary.river_player_nodes, rivers as u64);
    let blob = Blob::parse(&decompress(&contents[1]).unwrap()).unwrap();
    assert_eq!(blob.header.street, 2);
    assert_eq!(blob.header.board.len(), 5);
    assert_eq!(blob.nodes[0].kind, KIND_PLAYER);
    assert_eq!(blob.nodes[0].flags, FLAG_HAS_EV);
}

#[test]
fn every_river_of_a_rainbow_board_is_stored() {
    let names = ["As", "7d", "2c", "Kh"];
    let on = board(&names);
    let mut o = options(&names);
    o.store_river = true;
    o.compress = false;
    let mut exporter = Exporter::new(&root(&names), iso(&names), o).unwrap();
    let offered: Vec<u8> = (0..52u8).filter(|c| !on.contains(c)).collect();
    let tree = deal(&exporter, &on, &offered, &|_| act(0, 5, &[1.0, 0.5]));
    assert_eq!(exporter.run(&tree), Ok(0));
    let (summary, contents) = finish(&exporter);
    assert!(summary.warnings.is_empty());
    assert_eq!(summary.files.iter().filter(|f| f.path.starts_with("river/Kh/")).count(), 48);
    assert_eq!(summary.files.len(), 49);
    assert_eq!(summary.river_player_nodes, 48);
    let turn = Blob::parse(&contents[0]).unwrap();
    let slots = &turn.nodes[0].children;
    assert_eq!(slots.iter().filter(|c| **c == 0).count(), 48);
    assert_eq!(slots.iter().filter(|c| **c == CHILD_IMPOSSIBLE).count(), 4);
}

#[test]
fn nodes_can_be_exported_into_any_blob() {
    let names = ["As", "7d", "2c"];
    let ace = card_from_str("Ah").unwrap();
    let king = card_from_str("Kh").unwrap();
    let mut o = options(&names);
    o.river_ev = false;
    o.compress = false;
    let mut exporter = Exporter::new(&root(&names), iso(&names), o).unwrap();
    for (key, len) in [(BlobKey::Turn(ace), 4), (BlobKey::River(ace, king), 5)] {
        assert_eq!(exporter.walk(key, &act(0, len, &[1.0, 1.0])), Ok(0));
        assert_eq!(exporter.walk(key, &act(1, len, &[0.5, 0.25])), Ok(3));
        let (info, content) = exporter.pack(key).unwrap();
        assert_eq!(info.nodes, 6);
        let blob = Blob::parse(&content).unwrap();
        for at in [0, 3] {
            let node = &blob.nodes[at];
            assert_eq!((node.strategy.len(), node.children.len()), (2, 2));
            assert_eq!(node.strategy, vec![64, 255]);
            if len == 5 {
                assert_eq!((node.flags, node.ev.len(), node.ev_scale), (0, 0, single(0.0)));
            } else {
                assert_eq!((node.flags, node.ev.len()), (FLAG_HAS_EV, 4));
            }
        }
    }
    // What could not be exported leaves blobs that can be read.
    let mut broken = act(0, 4, &[1.0, 1.0]);
    if let GameNode::Player { children, .. } = &mut broken {
        children[1] = GameNode::Chance {
            bets: [0, 0],
            board: vec![],
            possible: 0,
            actions: vec![],
            children: vec![],
        };
    }
    assert_eq!(exporter.walk(BlobKey::Start, &broken), Err(Error::BoardLength(0)));
    let blob = Blob::parse(&exporter.pack(BlobKey::Start).unwrap().1).unwrap();
    assert_eq!(blob.nodes.len(), 3);
}

#[test]
fn pruned_nodes_keep_only_the_header() {
    let names = ["As", "7d", "2c", "Kh"];
    let mut o = options(&names);
    o.prune_epsilon = Double { bits: 1.0f64.to_bits() };
    o.compress = false;
    let mut exporter = Exporter::new(&root(&names), iso(&names), o).unwrap();
    let mut tree = act(0, 4, &[1.0, 1.0]);
    if let GameNode::Player { children, .. } = &mut tree {
        children[1] = act(1, 4, &[0.5, 0.2]);
    }
    assert_eq!(exporter.run(&tree), Ok(0));
    let (summary, contents) = finish(&exporter);
    assert_eq!(summary.pruned_nodes, 1);
    assert!(summary.files.iter().all(|f| f.path == "turn.bin"));
    let blob = Blob::parse(&contents[0]).unwrap();
    assert_eq!(blob.nodes.len(), 3);
    let root = &blob.nodes[0];
    assert_eq!(root.flags & FLAG_PRUNED, 0);
    let pruned = &blob.nodes[2];
    assert_eq!(pruned.flags, FLAG_PRUNED);
    assert_eq!((pruned.kind, pruned.player), (KIND_PLAYER, 1));
    assert!(pruned.strategy.is_empty());
    assert!(pruned.ev.is_empty());
    assert_eq!(pruned.actions.len(), 2);
    assert!(pruned.children.iter().all(|&c| c == CHILD_NOT_STORED));
}

fn river_blob(change: fn(&mut ExportOptions)) -> (ExportSummary, Blob) {
    let names = ["As", "7d", "2c", "Kh", "9s"];
    let mut o = options(&names);
    o.compress = false;
    change(&mut o);
    let mut exporter = Exporter::new(&root(&names), iso(&names), o).unwrap();
    let mut tree = act(0, 5, &[1.0, 1.0]);
    if let GameNode::Player { children, .. } = &mut tree {
        children[1] = act(1, 5, &[0.5, 0.2]);
    }
    assert_eq!(exporter.run(&tree), Ok(0));
    let (summary, contents) = finish(&exporter);
    assert_eq!(summary.files[0].path, "river.bin");
    (summary, Blob::parse(&contents[0]).unwrap())
}

#[test]
fn river_ev_off_drops_ev_only() {
    let (_, with) = river_blob(|_| ());
    let (_, without) = river_blob(|o| o.river_ev = false);
    assert_eq!(with.nodes.len(), without.nodes.len());
    for (a, b) in with.nodes.iter().zip(&without.nodes) {
        assert_eq!(a.strategy, b.strategy);
        assert_eq!(a.children, b.children);
        assert!(b.ev.is_empty());
        if a.kind == KIND_PLAYER {
            assert_eq!((a.flags, b.flags), (FLAG_HAS_EV, 0));
            assert_eq!(b.ev_scale, single(0.0));
        }
    }
}

#[test]
fn higher_river_thresholds_store_less() {
    let (low, _) = river_blob(|_| ());
    let (high, _) = river_blob(|o| o.river_prune_epsilon = Double { bits: 0.95f64.to_bits() });
    assert_eq!((low.node_count, low.pruned_nodes, low.river_player_nodes), (5, 0, 2));
    assert_eq!((high.node_count, high.pruned_nodes, high.river_player_nodes), (3, 1, 1));
}

#[test]
fn planning_agrees_with_the_export() {
    let names = ["As", "7d", "2c", "Kh", "9s"];
    let exporter = Exporter::new(&root(&names), iso(&names), options(&names)).unwrap();
    assert_eq!(exporter.is_pruned(0, &weights(&[1.0, 1.0]), 5), Ok(false));
    assert_eq!(exporter.is_pruned(1, &weights(&[0.000001, 0.000001]), 5), Ok(true));
    assert_eq!(exporter.is_pruned(1, &weights(&[0.0, 0.0]), 3), Ok(true));
    assert_eq!(exporter.is_pruned(2, &weights(&[1.0]), 3), Err(Error::UnknownPlayer(2)));
    assert_eq!(exporter.is_pruned(0, &weights(&[-1.0]), 3), Ok(true));
    assert_eq!(exporter.is_pruned(0, &weights(&[f32::NAN]), 3), Ok(false));
    assert_eq!(exporter.is_pruned(0, &weights(&[f32::INFINITY]), 3), Ok(false));
    assert!(exporter.has_ev(3) && exporter.has_ev(5));
}

#[test]
fn incomplete_games_are_refused() {
    let names = ["As", "7d", "2c", "Kh", "9s"];
    let run = |tree: GameNode| {
        let mut exporter = Exporter::new(&root(&names), iso(&names), options(&names)).unwrap();
        exporter.run(&tree)
    };
    let spoil = |f: fn(&mut GameNode)| {
        let mut tree = act(0, 5, &[1.0, 1.0]);
        f(&mut tree);
        run(tree)
    };
    assert_eq!(
        spoil(|t| if let GameNode::Player { solution, .. } = t {
            *solution = None;
        }),
        Err(Error::MissingStrategy)
    );
    assert_eq!(
        spoil(|t| if let GameNode::Player { solution: s, .. } = t {
            *s = Some(solution(&[1.0, 1.0], &[0.0, 0.0]));
        }),
        Err(Error::StrategyLength(2))
    );
    assert_eq!(
        spoil(|t| if let GameNode::Player { solution: s, .. } = t {
            *s = Solution::new(&singles(&[1.0; 4]), None, 2, 2).ok();
        }),
        Err(Error::EvLength(0))
    );
    let four = singles(&[0.5; 4]);
    let three = singles(&[0.5; 3]);
    assert_eq!(Solution::new(&three, Some(&four), 2, 2).err(), Some(Error::StrategyLength(3)));
    assert_eq!(Solution::new(&four, Some(&three), 2, 2).err(), Some(Error::EvLength(3)));
    assert_eq!(Solution::new(&four, None, 4, usize::MAX).err(), Some(Error::StrategyLength(4)));
    let found = solution(&[0.5; 4], &[1.0; 4]);
    assert_eq!((found.shape(), found.stores_ev()), ((2, 2), true));
    assert_eq!(weights(&[0.5, 0.25]).total(), Double { bits: 0.75f64.to_bits() });
    assert_eq!(
        spoil(|t| if let GameNode::Player { children, .. } = t {
            children.pop();
        }),
        Err(Error::MissingSubtree)
    );
    assert_eq!(
        spoil(|t| if let GameNode::Player { player, .. } = t {
            *player = 2;
        }),
        Err(Error::UnknownPlayer(2))
    );
    let chance = |board: Vec<u8>| {
        run(GameNode::Chance { bets: [0, 0], board, possible: 0, actions: vec![], children: vec![] })
    };
    assert_eq!(chance(vec![1, 2]), Err(Error::BoardLength(2)));
    assert_eq!(chance(vec![1, 2, 3, 77]), Err(Error::CardOutOfRange(77)));
    assert_eq!(
        run(GameNode::Chance {
            bets: [0, 0],
            board: vec![1, 2, 3],
            possible: 1,
            actions: vec![],
            children: vec![],
        }),
        Err(Error::MissingSubtree)
    );
}

#[test]
fn too_many_actions_cannot_be_packed() {
    let names = ["As", "7d", "2c", "Kh", "9s"];
    let mut exporter = Exporter::new(&root(&names), iso(&names), options(&names)).unwrap();
    let tree = GameNode::Player {
        bets: [0, 0],
        board_len: 5,
        player: 0,
        weights: weights(&[0.0, 0.0]),
        actions: vec![Action::Check; 256],
        solution: None,
        children: vec![],
    };
    assert_eq!(exporter.run(&tree), Ok(0));
    assert_eq!(exporter.pack(BlobKey::Start), Err(Error::TooManyActions(0)));
}
