use pokergoat_solver::cards::{board_from_str, card_from_str, to_lib};
use pokergoat_solver::error::Error;
use pokergoat_solver::export::Action;
use pokergoat_solver::ieee::{Double, Single};
use pokergoat_solver::range::to_library_notation;
use pokergoat_solver::validate::{
    exit_code, toy_game_result, Observed, ToyGameResult, BET, BLUFFS, BOARD, CALLED, IP_RANGE,
    MAX_EXPLOITABILITY_PCT, OOP_RANGE, POT, TARGET, TOLERANCE,
};

fn single(v: f32) -> Single {
    Single { bits: v.to_bits() }
}

fn float(d: Double) -> f64 {
    f64::from_bits(d.bits)
}

fn hand(name: &str) -> (u8, u8) {
    (
        to_lib(card_from_str(&name[0..2]).unwrap()),
        to_lib(card_from_str(&name[2..4]).unwrap()),
    )
}

/// Hands with weights and how often they take the second action.
fn observed(actions: Vec<Action>, hands: &[(&str, f32, f32)]) -> Observed {
    let mut strategy: Vec<Single> = hands.iter().map(|h| single(1.0 - h.2)).collect();
    strategy.extend(hands.iter().map(|h| single(h.2)));
    Observed {
        actions,
        hands: hands.iter().map(|h| hand(h.0)).collect(),
        weights: hands.iter().map(|h| single(h.1)).collect(),
        strategy,
    }
}

fn oop(bluff: f32) -> Observed {
    observed(
        vec![Action::Check, Action::AllIn(100)],
        &[("6s5h", 6.0, 1.0), ("5d6c", 6.0, 1.0), ("JhTd", 6.0, bluff), ("TsJs", 6.0, bluff)],
    )
}

fn ip(call: f32) -> Observed {
    observed(
        vec![Action::Fold, Action::Call],
        &[("QsQh", 1.0, call), ("QdQc", 1.0, call)],
    )
}

fn judge(bluff: f32, call: f32, exploitability: f32) -> ToyGameResult {
    toy_game_result(&oop(bluff), &ip(call), single(exploitability), 77, Double { bits: 0 }).unwrap()
}

#[test]
fn toy_game_matches_theory() {
    let result = judge(0.5, 0.5, 0.05);
    assert!(result.pass);
    assert_eq!(float(result.ip_call_frequency), 0.5);
    assert_eq!(float(result.bluff_share_of_bets), 6.0 / 18.0);
    assert_eq!(float(result.oop_bet_frequency_nuts), 1.0);
    assert_eq!(float(result.oop_bet_frequency_bluff), 0.5);
    assert_eq!(float(result.exploitability_pct_pot), 0.05f32 as f64 / 100.0 * 100.0);
    assert_eq!(result.iterations, 77);
    assert_eq!((result.board.as_str(), result.oop_range.as_str()), (BOARD, OOP_RANGE));
    assert_eq!(result.ip_range, IP_RANGE);
    let names: Vec<&str> = result.checks.iter().map(|c| c.name.as_str()).collect();
    assert_eq!(names, vec!["ipCallFrequency", "bluffShareOfBets", "exploitabilityPctPot"]);
    assert_eq!(float(result.checks[0].expected), 0.5);
    assert_eq!(float(result.checks[1].expected), 1.0 / 3.0);
    assert_eq!(float(result.checks[1].tolerance), 0.02);
    assert_eq!(float(result.checks[2].expected), 0.0);
    assert_eq!(float(result.checks[2].tolerance), 0.1);
}

#[test]
fn toy_game_passes_within_the_tolerance() {
    for k in 0..2000 {
        let call = 0.45 + 0.1 * k as f32 / 2000.0;
        let bluff = 0.4 + 0.2 * k as f32 / 2000.0;
        let r = judge(bluff, call, 0.0);
        let called = float(r.ip_call_frequency);
        let share = float(r.bluff_share_of_bets);
        assert_eq!(r.checks[0].pass, (called - 0.5).abs() <= 0.02, "{called}");
        assert_eq!(r.checks[1].pass, (share - 1.0 / 3.0).abs() <= 0.02, "{share}");
        assert_eq!(r.pass, r.checks.iter().all(|c| c.pass));
    }
    assert!(judge(0.5, 0.5, 0.1).checks[2].pass == (0.1f32 as f64 / 100.0 * 100.0 <= 0.1));
    assert!(!judge(0.5, 0.5, 0.11).pass);
    assert!(judge(0.5, 0.5, -1.0).pass);
    assert!(!judge(0.5, 0.5, f32::NAN).pass);
    assert!(!judge(0.0, 0.5, 0.0).pass);
    assert!(!judge(0.5, 0.0, 0.0).pass);
    assert!(!judge(1.0, 1.0, 0.0).pass);
}

#[test]
fn toy_game_refuses_what_it_does_not_expect() {
    let fault = |o: Observed, i: Observed| {
        toy_game_result(&o, &i, single(0.0), 1, Double { bits: 0 }).err()
    };
    let mut bad = oop(0.5);
    bad.actions[0] = Action::Fold;
    assert_eq!(fault(bad, ip(0.5)), Some(Error::ToyActions(0)));
    let mut bad = ip(0.5);
    bad.actions.push(Action::AllIn(100));
    assert_eq!(fault(oop(0.5), bad), Some(Error::ToyActions(1)));
    let mut bad = oop(0.5);
    bad.hands[1] = hand("AsKs");
    assert_eq!(fault(bad, ip(0.5)), Some(Error::ToyHand(11, 12)));
    let mut bad = oop(0.5);
    bad.weights[0] = single(0.0);
    bad.weights[1] = single(0.0);
    assert_eq!(fault(bad, ip(0.5)), Some(Error::ToyNoHands(0)));
    let mut bad = ip(0.5);
    bad.weights = vec![single(0.0); 2];
    assert_eq!(fault(oop(0.5), bad), Some(Error::ToyNoHands(1)));
    let mut bad = oop(0.0);
    bad.strategy[4] = single(0.0);
    bad.strategy[5] = single(0.0);
    assert_eq!(fault(bad, ip(0.5)), Some(Error::ToyNoBets));
    let mut bad = ip(0.5);
    bad.weights[1] = single(-1.0);
    assert_eq!(fault(oop(0.5), bad), Some(Error::ToyNoHands(1)));
}

#[test]
fn toy_game_is_set_up() {
    assert_eq!(board_from_str(BOARD).unwrap().len(), 5);
    assert_eq!(to_library_notation(OOP_RANGE).unwrap(), "JT,65");
    assert_eq!(to_library_notation(IP_RANGE).unwrap(), "QQ");
    assert_eq!(BET, "100%");
    assert_eq!(f64::from_bits(TOLERANCE), 0.02);
    assert_eq!(f64::from_bits(MAX_EXPLOITABILITY_PCT), 0.1);
    assert_eq!(f64::from_bits(CALLED), 0.5);
    assert_eq!(f64::from_bits(BLUFFS), 1.0 / 3.0);
    assert_eq!(f32::from_bits(TARGET), POT as f32 * (0.1f64 as f32 / 100.0) * 0.5);
}

#[test]
fn odd_numbers_are_carried_on() {
    // A NaN is neither close to anything nor nothing.
    let mut odd = ip(0.5);
    odd.weights[1] = single(f32::INFINITY);
    odd.strategy[3] = single(0.0);
    let r = toy_game_result(&oop(0.5), &odd, single(0.0), 1, Double { bits: 0 }).unwrap();
    assert!(f64::from_bits(r.ip_call_frequency.bits).is_nan());
    assert!(!r.checks[0].pass && r.checks[1].pass && !r.pass);
    assert_eq!(exit_code(&r), 1);
    let r = toy_game_result(&oop(0.5), &ip(0.5), single(0.0), 1, Double { bits: 0 }).unwrap();
    assert_eq!(exit_code(&r), 0);
}

#[test]
fn sums_are_those_of_hardware() {
    let mut state = 0x2545_F491_4F6C_DD1Du64;
    let mut next = || {
        state ^= state << 13;
        state ^= state >> 7;
        state ^= state << 17;
        state
    };
    let mut judged = 0;
    for round in 0..20_000u64 {
        let n = 2 + (next() % 6) as usize;
        let mut number = || {
            let r = next();
            match (r >> 8) % 4 {
                0 => f32::from_bits((r >> 32) as u32),
                1 => f32::from_bits(0x3F80_0000 + (r >> 32) as u32 % 0x100_0000),
                2 => -f32::from_bits(0x3F80_0000 + (r >> 32) as u32 % 0x100_0000),
                _ => f32::from_bits(((r >> 32) as u32 & 0x87FF_FFFF) + 0x3C00_0000),
            }
        };
        let weights: Vec<f32> = (0..n).map(|_| number()).collect();
        let calls: Vec<f32> = (0..n).map(|_| number()).collect();
        let mut total = 0.0f64;
        let mut calling = 0.0f64;
        for (w, c) in weights.iter().zip(&calls) {
            total += *w as f64;
            calling += *w as f64 * *c as f64;
        }
        let mut odd = ip(0.5);
        odd.hands = vec![odd.hands[0]; n];
        odd.weights = weights.iter().map(|w| single(*w)).collect();
        odd.strategy = vec![single(0.0); n];
        odd.strategy.extend(calls.iter().map(|c| single(*c)));
        let result = toy_game_result(&oop(0.5), &odd, single(0.0), 1, Double { bits: 0 });
        if total <= 0.0 {
            assert_eq!(result.err(), Some(Error::ToyNoHands(1)), "{round}");
        } else {
            let got = float(result.unwrap().ip_call_frequency);
            let expected = calling / total;
            assert!(got.to_bits() == expected.to_bits() || (got.is_nan() && expected.is_nan()), "{round}");
            judged += 1;
        }
    }
    assert!(judged > 5_000);
}
