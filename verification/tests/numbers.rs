use pokergoat_solver::arith::{big_blinds, chips};
use pokergoat_solver::blob::{dequantize_ev, dequantize_strategy, quantize_ev, quantize_strategy};
use pokergoat_solver::ieee::{Double, Single};

fn single(v: f32) -> Single {
    Single { bits: v.to_bits() }
}

fn double(v: f64) -> Double {
    Double { bits: v.to_bits() }
}

struct Dice(u64);

impl Dice {
    fn next(&mut self) -> u64 {
        self.0 = self.0.wrapping_mul(6364136223846793005).wrapping_add(1442695040888963407);
        self.0 ^ (self.0 >> 29)
    }
}

const SPECIAL: [f64; 16] = [
    0.0,
    -0.0,
    1.0,
    -1.0,
    0.005,
    0.015,
    21474836.47,
    -21474836.48,
    1e300,
    -1e300,
    f64::INFINITY,
    f64::NEG_INFINITY,
    f64::NAN,
    5e-324,
    2.2250738585072014e-308,
    1.7976931348623157e308,
];

#[test]
fn chips_round_half_away() {
    let mut dice = Dice(7);
    let mut values: Vec<f64> = SPECIAL.to_vec();
    for _ in 0..20000 {
        values.push(f64::from_bits(dice.next()));
        values.push((dice.next() % 1_000_000) as f64 / 1000.0);
        values.push((dice.next() % 1_000_000) as f64 / 200.0 + 0.005);
        values.push(-((dice.next() % 1_000_000) as f64) / 800.0);
    }
    for v in values {
        assert_eq!(chips(double(v)), (v * 100.0).round() as i32, "{v:e}");
    }
    assert_eq!(chips(double(5.5)), 550);
}

#[test]
fn big_blinds_divide_by_a_hundred() {
    let mut dice = Dice(11);
    let mut values = vec![0, 1, -1, 183, 100, i32::MAX, i32::MIN, 16777217, -16777217];
    for _ in 0..50000 {
        values.push(dice.next() as i32);
        values.push((dice.next() % 100000) as i32);
    }
    for v in values {
        assert_eq!(big_blinds(v).bits, (v as f32 / 100.0f32).to_bits(), "{v}");
    }
}

#[test]
fn whole_big_blinds_survive() {
    for n in 1..=20000i32 {
        assert_eq!(chips(double(n as f64)), 100 * n);
        assert_eq!(big_blinds(100 * n), single(n as f32));
    }
}

#[test]
fn numbers_are_compared_as_ieee_says() {
    let mut dice = Dice(3);
    let mut values: Vec<f64> = SPECIAL.to_vec();
    for _ in 0..60 {
        values.push(f64::from_bits(dice.next()));
    }
    for a in &values {
        for b in &values {
            assert_eq!(double(*a).lt(&double(*b)), a < b);
            assert_eq!(double(*a).le(&double(*b)), a <= b);
            let (x, y) = (*a as f32, *b as f32);
            assert_eq!(single(x).le(&single(y)), x <= y);
            assert_eq!(single(x).eq_number(&single(y)), x == y);
        }
        let x = *a as f32;
        assert_eq!(single(x).is_positive(), x > 0.0 && x.is_finite());
    }
}

/// Largest remainders in hardware arithmetic.
fn shares(strategy: &[f32], n_actions: usize, n_hands: usize) -> Vec<u8> {
    let mut out = vec![0u8; (n_actions - 1) * n_hands];
    for hand in 0..n_hands {
        let mut scaled: Vec<f64> = (0..n_actions)
            .map(|a| strategy[a * n_hands + hand])
            .map(|v| if v.is_finite() && v > 0.0 { v as f64 } else { 0.0 })
            .collect();
        let mut sum = 0.0;
        for v in &scaled {
            sum += v;
        }
        if sum <= 0.0 {
            scaled = vec![1.0; n_actions];
            sum = n_actions as f64;
        }
        let exact: Vec<f64> = scaled.iter().map(|v| v / sum * 255.0).collect();
        let mut quota: Vec<u16> = exact.iter().map(|x| x.floor() as u16).collect();
        let mut rest: Vec<f64> = exact.iter().map(|x| x - x.floor()).collect();
        let mut assigned: u16 = quota.iter().sum();
        while assigned < 255 {
            let mut best = 0;
            let mut best_value = -1.0;
            for a in 0..n_actions {
                if rest[a] > best_value {
                    best_value = rest[a];
                    best = a;
                }
            }
            quota[best] += 1;
            rest[best] = -1.0;
            assigned += 1;
        }
        for a in 0..n_actions - 1 {
            out[a * n_hands + hand] = quota[a].min(255) as u8;
        }
    }
    out
}

fn random_float(dice: &mut Dice) -> f32 {
    match dice.next() % 10 {
        0 => 0.0,
        1 => f32::from_bits(dice.next() as u32),
        2 => f32::from_bits((dice.next() % 0x7F80_0000) as u32),
        3 => (dice.next() % 256) as f32 / 255.0,
        4 => -0.25,
        _ => (dice.next() % 1_000_001) as f32 / 1_000_000.0,
    }
}

#[test]
fn strategies_are_shared_out_as_in_hardware() {
    let mut dice = Dice(5);
    for round in 0..400 {
        let n_actions = 2 + (dice.next() % 7) as usize;
        let n_hands = 1 + (dice.next() % 20) as usize;
        let strategy: Vec<f32> = (0..n_actions * n_hands).map(|_| random_float(&mut dice)).collect();
        let input: Vec<Single> = strategy.iter().map(|v| single(*v)).collect();
        let bytes = quantize_strategy(&input, n_actions, n_hands);
        assert_eq!(bytes, shares(&strategy, n_actions, n_hands), "round {round}");
        let back = dequantize_strategy(&bytes, n_actions, n_hands);
        for hand in 0..n_hands {
            let mut rest = 255u32;
            for a in 0..n_actions - 1 {
                let byte = bytes[a * n_hands + hand];
                assert_eq!(back[a * n_hands + hand], single(byte as f32 / 255.0));
                rest = rest.saturating_sub(byte as u32);
            }
            assert_eq!(back[(n_actions - 1) * n_hands + hand], single(rest as f32 / 255.0));
        }
    }
}

#[test]
fn single_actions_are_certain() {
    assert!(quantize_strategy(&[], 1, 0).is_empty());
    assert!(quantize_strategy(&[single(0.3), single(0.4)], 1, 2).is_empty());
    assert_eq!(dequantize_strategy(&[], 1, 2), vec![single(1.0), single(1.0)]);
    assert!(dequantize_strategy(&[], 0, 2).is_empty());
    // Nodes without a body are read as uniform.
    assert_eq!(dequantize_strategy(&[], 3, 2), vec![single(1.0f32 / 3.0); 6]);
}

#[test]
fn evs_are_scaled_as_in_hardware() {
    let mut dice = Dice(9);
    for _ in 0..400 {
        let n = (dice.next() % 40) as usize;
        let factor = [1.0f32, 1e-3, 1e-30, 1e30, 1e-42][(dice.next() % 5) as usize];
        let values: Vec<f32> = (0..n)
            .map(|_| {
                let v = random_float(&mut dice) * factor;
                if dice.next() % 2 == 0 {
                    v
                } else {
                    -v
                }
            })
            .collect();
        let mut max = 0f32;
        for v in &values {
            if v.is_finite() {
                max = max.max(v.abs());
            }
        }
        let (expected, scale): (Vec<i16>, f32) = if max <= 0.0 {
            (vec![0; n], 1.0)
        } else {
            let scale = max / 32767.0;
            let encoded = values
                .iter()
                .map(|v| {
                    if v.is_finite() {
                        (v / scale).round().clamp(-32768.0, 32767.0) as i16
                    } else {
                        0
                    }
                })
                .collect();
            (encoded, scale)
        };
        let input: Vec<Single> = values.iter().map(|v| single(*v)).collect();
        let (encoded, s) = quantize_ev(&input);
        assert_eq!(s, single(scale));
        assert_eq!(encoded, expected, "{values:?}");
        let back = dequantize_ev(&encoded, s);
        for (e, b) in encoded.iter().zip(back.iter()) {
            assert_eq!(b.bits, (*e as f32 * scale).to_bits());
        }
    }
}

#[test]
fn evs_come_back_from_any_scale() {
    for scale in [0.0f32, 1.5, f32::MIN_POSITIVE, f32::MAX, f32::INFINITY, f32::NAN] {
        let values = [-32767i16, -1, 0, 1, 32767];
        let back = dequantize_ev(&values, single(scale));
        for (v, b) in values.iter().zip(&back) {
            let expected = *v as f32 * scale;
            let got = f32::from_bits(b.bits);
            assert!(got == expected || (got.is_nan() && expected.is_nan()), "{v} * {scale}");
        }
    }
}
