use pokergoat_solver::config::{
    default_add_all_in_threshold, default_all_in_threshold, default_max_raises,
    default_merging_threshold, default_target_exploitability, BetSizing, BoardInput, Donk, JobConfig,
    Rake, Sizing, Street, StreetSizing, MAX_ITERATIONS,
};
use pokergoat_solver::error::Error;
use pokergoat_solver::ieee::Double;
use pokergoat_solver::job::{
    all_warnings, blob_header, compression_name, exploitability_pct, export_options,
};
use pokergoat_solver::plan::{build_card_config, build_tree_config, check_hands};
use pokergoat_solver::tree::RangeWeights;
use pokergoat_solver::{ieee::Single, ENGINE_REV, SOLVER_VERSION};

fn double(v: f64) -> Double {
    Double { bits: v.to_bits() }
}

fn doubles(values: &[f64]) -> Vec<Double> {
    values.iter().map(|v| double(*v)).collect()
}

fn float(d: Double) -> f64 {
    f64::from_bits(d.bits)
}

fn player(bet: &[f64], raise: &[f64]) -> BetSizing<Double> {
    BetSizing { bet: doubles(bet), raise: doubles(raise) }
}

fn both(bet: &[f64], raise: &[f64]) -> StreetSizing<Double> {
    StreetSizing { oop: player(bet, raise), ip: player(bet, raise) }
}

fn sample() -> JobConfig {
    JobConfig {
        board: BoardInput::Text("As7d2c".to_string()),
        ranges: ["22+,A2s+".to_string(), "QQ-22,AQs-A2s".to_string()],
        pot: double(5.5),
        effective_stack: double(97.5),
        sizing: Sizing {
            flop: both(&[33.0, 75.0], &[50.0]),
            turn: both(&[50.0, 100.0], &[50.0]),
            river: both(&[50.0, 100.0, 150.0], &[50.0]),
        },
        max_raises_per_street: 2,
        all_in_threshold: double(0.67),
        add_all_in_threshold: default_add_all_in_threshold(),
        iterations: 1000,
        target_exploitability: double(0.3),
        rake: Some(Rake { percent: double(5.0), cap_bb: double(3.0) }),
        donk: Some(Donk { turn: doubles(&[50.0]), river: doubles(&[50.0]) }),
        merging_threshold: double(0.1),
        store_river: false,
        river_prune_reach: None,
        river_ev: None,
        scenario_id: 0,
        template_id: 0,
        scenario: None,
        template: None,
    }
}

fn fault(change: fn(&mut JobConfig)) -> Option<Error> {
    let mut config = sample();
    change(&mut config);
    config.validate([true, true]).err()
}

#[test]
fn parses_sample() {
    let config = sample();
    assert_eq!(config.validate([true, true]), Ok(()));
    assert_eq!(config.board_cards().unwrap(), vec![48, 22, 3]);
    assert_eq!(config.street().unwrap(), Street::Flop);
    assert_eq!(config.pot_chips(), 550);
    assert_eq!(config.stack_chips(), 9750);
    assert_eq!(float(config.rake_rate()), 0.05);
    assert_eq!(float(config.rake_cap_chips()), 300.0);
    assert_eq!(config.sizing.flop.oop.bet, doubles(&[33.0, 75.0]));
    assert!(!config.store_river);
    assert_eq!(config.max_raises_per_street, 2);
}

#[test]
fn board_as_ids_is_equivalent() {
    let mut config = sample();
    config.board = BoardInput::Ids(vec![48, 22, 3]);
    assert_eq!(config.board_cards().unwrap(), vec![48, 22, 3]);
    assert_eq!(config.validate([true, true]), Ok(()));
}

#[test]
fn defaults_apply() {
    assert_eq!(default_max_raises(), 2);
    assert_eq!(float(default_all_in_threshold()), 0.67);
    assert_eq!(float(default_add_all_in_threshold()), 1.5);
    assert_eq!(float(default_merging_threshold()), 0.1);
    assert_eq!(float(default_target_exploitability()), 0.3);
    let mut config = sample();
    config.rake = None;
    assert_eq!(float(config.rake_rate()), 0.0);
    assert_eq!(float(config.rake_cap_chips()), 0.0);
}

#[test]
fn rejects_bad_board() {
    let mut config = sample();
    config.board = BoardInput::Text("AsAs2c".to_string());
    assert_eq!(config.validate([true, true]), Err(Error::DuplicateCard));
    config.board = BoardInput::Text("As2c".to_string());
    assert_eq!(config.validate([true, true]), Err(Error::BoardLength(2)));
    config.board = BoardInput::Text("As2".to_string());
    assert_eq!(config.validate([true, true]), Err(Error::BoardText));
    config.board = BoardInput::Ids(vec![0, 1, 52]);
    assert_eq!(config.validate([true, true]), Err(Error::CardOutOfRange(52)));
    config.board = BoardInput::Ids(vec![0, 1, 2, 3, 4, 5]);
    assert_eq!(config.street(), Err(Error::BoardLength(6)));
}

#[test]
fn rejects_bad_numbers() {
    assert_eq!(fault(|c| c.pot = double(0.0)), Some(Error::Pot));
    assert_eq!(fault(|c| c.iterations = 99999), Some(Error::Iterations(99999)));
    assert_eq!(fault(|c| c.all_in_threshold = double(1.5)), Some(Error::AllInThreshold));
    assert_eq!(fault(|c| c.pot = double(f64::NAN)), Some(Error::Pot));
    assert_eq!(fault(|c| c.effective_stack = double(-1.0)), Some(Error::Stack));
    assert_eq!(fault(|c| c.pot = double(0.004)), Some(Error::NoChips));
    assert_eq!(fault(|c| c.iterations = 0), Some(Error::Iterations(0)));
    assert_eq!(fault(|c| c.iterations = MAX_ITERATIONS), None);
    assert_eq!(fault(|c| c.add_all_in_threshold = double(-0.1)), Some(Error::AddAllInThreshold));
    assert_eq!(fault(|c| c.merging_threshold = double(-0.1)), Some(Error::MergingThreshold));
    assert_eq!(
        fault(|c| c.target_exploitability = double(-0.1)),
        Some(Error::TargetExploitability)
    );
    assert_eq!(
        fault(|c| c.rake = Some(Rake { percent: double(100.5), cap_bb: double(0.0) })),
        Some(Error::RakePercent)
    );
    assert_eq!(
        fault(|c| c.rake = Some(Rake { percent: double(100.0), cap_bb: double(-1.0) })),
        Some(Error::RakeCap)
    );
}

#[test]
fn rejects_bad_sizes() {
    assert_eq!(
        fault(|c| c.sizing.flop.ip.raise = vec![double(0.0)]),
        Some(Error::BetSize(0, 1))
    );
    assert_eq!(
        fault(|c| c.sizing.river.oop.bet = vec![double(50.0), double(10000.5)]),
        Some(Error::BetSize(2, 0))
    );
    assert_eq!(
        fault(|c| c.donk = Some(Donk { turn: vec![], river: vec![double(-5.0)] })),
        Some(Error::DonkSize)
    );
    assert_eq!(fault(|c| c.sizing.turn.ip.bet = vec![double(10000.0)]), None);
}

#[test]
fn rejects_bad_range() {
    let mut config = sample();
    config.ranges[0] = "ZZ".to_string();
    assert_eq!(config.validate([true, true]), Err(Error::RangeChar('Z')));
    config.ranges[0] = " \t".to_string();
    assert_eq!(config.validate([true, true]), Err(Error::BlankRange(0)));
    config.ranges[0] = "22+".to_string();
    assert_eq!(config.validate([true, false]), Err(Error::RefusedRange(1)));
}

#[test]
fn rejects_river_prune_reach_out_of_range() {
    assert_eq!(
        fault(|c| c.river_prune_reach = Some(double(2.5))),
        Some(Error::RiverPruneReach)
    );
    assert_eq!(fault(|c| c.river_prune_reach = Some(double(0.001))), None);
}

#[test]
fn street_from_board_length() {
    let mut config = sample();
    config.board = BoardInput::Text("As7d2cKh".to_string());
    assert_eq!(config.street().unwrap(), Street::Turn);
    config.board = BoardInput::Text("As7d2cKh9s".to_string());
    assert_eq!(config.street().unwrap(), Street::River);
    assert_eq!((Street::Turn.as_u8(), Street::Turn.as_str()), (1, "turn"));
    assert_eq!((Street::Flop.as_u8(), Street::Flop.as_str()), (0, "flop"));
    assert_eq!((Street::River.as_u8(), Street::River.as_str()), (2, "river"));
}

#[test]
fn targets_are_in_chips() {
    let mut config = sample();
    let chips = |c: &JobConfig| f32::from_bits(c.target_exploitability_chips().bits);
    assert_eq!(chips(&config), (550f64 * 0.3 / 100.0) as f32);
    config.target_exploitability = double(1.7976931348623157e308);
    assert_eq!(chips(&config), f32::INFINITY);
    config.target_exploitability = double(1e-320);
    assert_eq!(chips(&config), 0.0);
    config.target_exploitability = double(f64::NAN);
    assert!(chips(&config).is_nan());
}

#[test]
fn exploitability_is_a_percentage_of_the_pot() {
    for (e, pot) in [(0.27f32, 550i32), (0.0, 100), (-1.5, 7), (3.4e38, 1), (1e-45, 2147483647)] {
        let r = exploitability_pct(Single { bits: e.to_bits() }, pot);
        assert_eq!(float(r), e as f64 / pot as f64 * 100.0);
    }
    assert_eq!(float(exploitability_pct(Single { bits: 1.0f32.to_bits() }, 0)), f64::INFINITY);
    assert!(float(exploitability_pct(Single { bits: 0 }, 0)).is_nan());
}

#[test]
fn headers_come_from_the_job() {
    let mut config = sample();
    config.scenario_id = 42;
    config.template_id = 7;
    let header = blob_header(&config, double(0.1), 110).unwrap();
    assert_eq!(header.scenario_id, 42);
    assert_eq!(header.template_id, 7);
    assert_eq!(header.solver_version, SOLVER_VERSION);
    assert_eq!(header.board, vec![48, 22, 3]);
    assert_eq!(header.street, 0);
    assert_eq!(f32::from_bits(header.starting_pot.bits), 5.5);
    assert_eq!(f32::from_bits(header.effective_stack.bits), 97.5);
    assert_eq!(f32::from_bits(header.rake_percent.bits), 5.0);
    assert_eq!(f32::from_bits(header.rake_cap.bits), 3.0);
    assert_eq!(f32::from_bits(header.exploitability_pct.bits), 0.1f32);
    assert_eq!(header.iterations, 110);
    config.board = BoardInput::Ids(vec![1]);
    assert_eq!(blob_header(&config, double(0.1), 110), Err(Error::BoardLength(1)));
    assert_eq!(ENGINE_REV.len(), 40);
}

#[test]
fn flags_override_the_job_in_an_export() {
    let mut config = sample();
    let header = blob_header(&config, double(0.1), 1).unwrap();
    let plain = export_options(&config, header.clone(), None, None, true, "out".to_string());
    assert_eq!(float(plain.prune_epsilon), 1e-5);
    assert_eq!(float(plain.river_prune_epsilon), 1e-5);
    assert!(plain.river_ev && plain.compress && !plain.store_river);
    config.river_prune_reach = Some(double(0.01));
    config.river_ev = Some(false);
    let job = export_options(&config, header.clone(), None, None, true, "out".to_string());
    assert_eq!(float(job.river_prune_epsilon), 0.01);
    assert!(!job.river_ev);
    let flags = export_options(&config, header, Some(double(0.5)), Some(true), false, "o".to_string());
    assert_eq!(float(flags.river_prune_epsilon), 0.5);
    assert!(flags.river_ev && !flags.compress);
    assert_eq!(flags.out_dir, "o");
}

#[test]
fn warnings_are_collected_in_order() {
    let tree = vec!["a".to_string()];
    let export = vec!["b".to_string(), "c".to_string()];
    assert_eq!(all_warnings(&tree, &export, None), vec!["a", "b", "c"]);
    assert_eq!(
        all_warnings(&tree, &export, Some("1.5")),
        vec!["a", "b", "c", "시간 상한 1.5초에 걸려 목표 정확도 전에 마감했다"]
    );
}

fn shown_player(s: &BetSizing<Double>) -> BetSizing<String> {
    BetSizing { bet: shown(&s.bet), raise: shown(&s.raise) }
}

fn shown_street(s: &StreetSizing<Double>) -> StreetSizing<String> {
    StreetSizing { oop: shown_player(&s.oop), ip: shown_player(&s.ip) }
}

fn shown(sizes: &[Double]) -> Vec<String> {
    sizes.iter().map(|d| format!("{}", float(*d))).collect()
}

fn all_shown(c: &JobConfig) -> (Sizing<String>, Donk<String>) {
    (
        Sizing {
            flop: shown_street(&c.sizing.flop),
            turn: shown_street(&c.sizing.turn),
            river: shown_street(&c.sizing.river),
        },
        match &c.donk {
            Some(d) => Donk { turn: shown(&d.turn), river: shown(&d.river) },
            None => Donk { turn: vec![], river: vec![] },
        },
    )
}

#[test]
fn trees_come_from_the_job() {
    let mut config = sample();
    config.sizing.flop.ip.bet = doubles(&[33.3, 75.0]);
    config.donk = Some(Donk { turn: doubles(&[50.0]), river: vec![] });
    let (sizing, donk) = all_shown(&config);
    let (tree, warnings) = build_tree_config(&config, &sizing, &donk).unwrap();
    assert_eq!(tree.initial_state, Street::Flop);
    assert_eq!((tree.starting_pot, tree.effective_stack), (550, 9750));
    assert_eq!(float(tree.rake_rate), 0.05);
    assert_eq!(float(tree.rake_cap), 300.0);
    assert_eq!(tree.flop_bet_sizes.oop.bet, "33%,75%");
    assert_eq!(tree.flop_bet_sizes.oop.raise, "50%");
    assert_eq!(tree.flop_bet_sizes.ip.bet, "33.3%,75%");
    assert_eq!(tree.turn_bet_sizes.ip.bet, "50%,100%");
    assert_eq!(tree.river_bet_sizes.oop.bet, "50%,100%,150%");
    assert_eq!(tree.turn_donk_sizes, Some("50%".to_string()));
    assert_eq!(tree.river_donk_sizes, None);
    assert_eq!(float(tree.force_allin_threshold), 0.67);
    assert_eq!(float(tree.add_allin_threshold), 1.5);
    assert_eq!(float(tree.merging_threshold), 0.1);
    assert_eq!(warnings.len(), 1);
}

#[test]
fn max_raises_warns() {
    let mut config = sample();
    let (sizing, donk) = all_shown(&config);
    let (_, warnings) = build_tree_config(&config, &sizing, &donk).unwrap();
    assert!(warnings.iter().any(|w| w.contains("maxRaisesPerStreet")));
    config.max_raises_per_street = 4294967295;
    let (_, warnings) = build_tree_config(&config, &sizing, &donk).unwrap();
    assert_eq!(
        warnings,
        vec!["maxRaisesPerStreet=4294967295는 엔진에 대응 옵션이 없어 무시했다. 레이즈 횟수는 스택과 사이즈 목록이 결정한다."]
    );
    config.max_raises_per_street = 0;
    let (_, warnings) = build_tree_config(&config, &sizing, &donk).unwrap();
    assert!(warnings.is_empty());
    config.board = BoardInput::Text("A".to_string());
    assert_eq!(build_tree_config(&config, &sizing, &donk).err(), Some(Error::BoardText));
}

#[test]
fn cards_come_from_the_job() {
    let weights = || RangeWeights { weights: vec![Single { bits: 0 }; 1326] };
    let mut config = sample();
    let flop = build_card_config(&config, [weights(), weights()]).unwrap();
    assert_eq!((flop.flop, flop.turn, flop.river), ([51, 21, 0], None, None));
    config.board = BoardInput::Text("As7d2cKh9s".to_string());
    let river = build_card_config(&config, [weights(), weights()]).unwrap();
    assert_eq!((river.flop, river.turn, river.river), ([51, 21, 0], Some(46), Some(31)));
    assert_eq!(check_hands(0, 3), Err(Error::NoHands));
    assert_eq!(check_hands(3, 0), Err(Error::NoHands));
    assert_eq!(check_hands(1, 1), Ok(()));
}

#[test]
fn compression_is_named() {
    assert_eq!(compression_name(true), "brotli-9");
    assert_eq!(compression_name(false), "none");
}
