use pokergoat_solver::cards::{card_from_str, combo_index};
use pokergoat_solver::error::Error;
use pokergoat_solver::ieee::Single;
use pokergoat_solver::range::{normalize_token, to_library_notation, total_weight};
use pokergoat_solver::text::is_blank;
use pokergoat_solver::tree::RangeWeights;

fn weigh(weights: &[f32]) -> f32 {
    let weights = weights.iter().map(|w| Single { bits: w.to_bits() }).collect();
    f32::from_bits(total_weight(&RangeWeights { weights }).bits)
}

#[test]
fn combo_count_of_pair_is_six() {
    let mut weights = vec![0.0f32; 1326];
    let queens: Vec<u8> = ["Qs", "Qh", "Qd", "Qc"].iter().map(|c| card_from_str(c).unwrap()).collect();
    for i in 0..4 {
        for j in (i + 1)..4 {
            weights[combo_index(queens[i], queens[j]).unwrap() as usize] = 1.0;
        }
    }
    assert_eq!(weigh(&weights), 6.0);
    assert_eq!(weigh(&vec![1.0; 1326]), 1326.0);
    assert_eq!(weigh(&vec![0.0; 1326]), 0.0);
    assert_eq!(weigh(&vec![-0.0; 1326]), 0.0);
}

#[test]
fn weights_are_added_as_in_hardware() {
    let mut state = 0x9E37_79B9_7F4A_7C15u64;
    let mut next = || {
        state ^= state << 13;
        state ^= state >> 7;
        state ^= state << 17;
        state
    };
    for round in 0..400 {
        let weights: Vec<f32> = (0..1326)
            .map(|_| {
                let r = next();
                match (round + r % 5) % 5 {
                    0 => (r >> 40) as f32 / 16_777_216.0,
                    1 => f32::from_bits((r >> 33) as u32 % 0x3F80_0001),
                    2 => f32::from_bits((r >> 33) as u32 % 0x0100_0000),
                    3 => 1.0,
                    _ => ((r >> 40) % 101) as f32 / 100.0,
                }
            })
            .collect();
        let mut expected = 0.0f32;
        for w in &weights {
            expected += w;
        }
        assert_eq!(weigh(&weights).to_bits(), expected.to_bits());
    }
}

#[test]
fn separators_and_case() {
    let a = to_library_notation("AA, KK").unwrap();
    let b = to_library_notation("aa kk").unwrap();
    assert_eq!(a, b);
    assert_eq!(a, "KK,AA");
}

#[test]
fn later_token_overrides_earlier() {
    // The engine lets the earlier token win, so the later one comes first.
    assert_eq!(to_library_notation("AA, AA:0.25").unwrap(), "AA:0.25,AA");
    assert_eq!(to_library_notation("22+:1, TT:0.5").unwrap(), "TT:0.5,22+:1");
}

#[test]
fn empty_input_rejected() {
    assert_eq!(to_library_notation("   "), Err(Error::RangeEmpty));
    assert_eq!(to_library_notation(""), Err(Error::RangeEmpty));
    assert_eq!(to_library_notation(",,\t, \r\n"), Err(Error::RangeEmpty));
}

#[test]
fn junk_rejected() {
    assert_eq!(to_library_notation("XX"), Err(Error::RangeChar('X')));
    assert_eq!(to_library_notation("A*"), Err(Error::RangeChar('*')));
    assert_eq!(to_library_notation("AK,q#"), Err(Error::RangeChar('#')));
}

#[test]
fn tokens_are_normal_once_and_for_all() {
    for (token, normal) in [("aHkH", "AhKh"), ("t9S-65s", "T9s-65s"), ("KQO:0.5", "KQo:0.5"), ("", "")] {
        assert_eq!(normalize_token(token).unwrap(), normal);
        assert_eq!(normalize_token(normal).unwrap(), normal);
    }
    for code in 0..0x3000u32 {
        if let Some(c) = char::from_u32(code) {
            let fine = "0123456789+-:.tjqkashdcoTJQKASHDCO".contains(c);
            assert_eq!(normalize_token(&c.to_string()).is_ok(), fine, "{code:x}");
        }
    }
    assert_eq!(normalize_token("A B"), Err(Error::RangeChar(' ')));
    let first = to_library_notation("aa, kk:0.5  QQ").unwrap();
    let second = to_library_notation(&first).unwrap();
    assert_eq!((first.as_str(), second.as_str()), ("QQ,KK:0.5,AA", "AA,KK:0.5,QQ"));
    assert_eq!(to_library_notation(&second).unwrap(), first);
}

#[test]
fn tokens_keep_their_meaning() {
    assert_eq!(to_library_notation("22+").unwrap(), "22+");
    assert_eq!(to_library_notation("t9S-65s").unwrap(), "T9s-65s");
    assert_eq!(to_library_notation("ahkH").unwrap(), "AhKh");
    assert_eq!(to_library_notation("kqO:0.5").unwrap(), "KQo:0.5");
    assert_eq!(to_library_notation("AK\u{3000}\nAQ").unwrap(), "AQ,AK");
}

#[test]
fn blanks_are_those_of_unicode() {
    for code in 0..0x110000u32 {
        if let Some(c) = char::from_u32(code) {
            assert_eq!(is_blank(c), c.is_whitespace(), "{code:x}");
        }
    }
}
