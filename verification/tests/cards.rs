use pokergoat_solver::cards::{
    board_from_str, board_to_string, card_from_str, card_to_string, combo_from_index, combo_index,
    from_lib, lib_card_to_string, rank_of, suit_of, swap_encoding, to_lib, NUM_COMBOS,
};
use pokergoat_solver::error::Error;

#[test]
fn encoding_round_trip() {
    for card in 0u8..52 {
        assert_eq!(from_lib(to_lib(card)), card);
        assert_eq!(to_lib(from_lib(card)), card);
    }
}

#[test]
fn encoding_matches_library_convention() {
    // As is rank 12 and suit 0 for us, and 4 * 12 + 3 for the engine.
    assert_eq!(card_from_str("As").unwrap(), 48);
    assert_eq!(to_lib(48), 51);
    assert_eq!(card_from_str("2c").unwrap(), 3);
    assert_eq!(to_lib(3), 0);
    assert_eq!(card_from_str("7d").unwrap(), 22);
    assert_eq!(to_lib(22), 21);
}

#[test]
fn card_string_round_trip() {
    for card in 0u8..52 {
        let s = card_to_string(card).unwrap();
        assert_eq!(card_from_str(&s).unwrap(), card);
    }
}

#[test]
fn board_parsing() {
    assert_eq!(board_from_str("As7d2c").unwrap(), vec![48, 22, 3]);
    assert_eq!(board_to_string(&[48, 22, 3]).unwrap(), "As7d2c");
    assert!(board_from_str("As7d2").is_err());
}

#[test]
fn combo_index_round_trip() {
    let mut seen = vec![false; NUM_COMBOS];
    for lo in 0u8..52 {
        for hi in (lo + 1)..52 {
            let idx = combo_index(lo, hi).unwrap();
            assert_eq!(combo_index(hi, lo).unwrap(), idx);
            assert!(!seen[idx as usize], "combo index twice: {idx}");
            seen[idx as usize] = true;
            assert_eq!(combo_from_index(idx).unwrap(), (lo, hi));
        }
    }
    assert!(seen.into_iter().all(|v| v));
}

#[test]
fn combo_index_bounds() {
    assert_eq!(combo_index(0, 1).unwrap(), 0);
    assert_eq!(combo_index(50, 51).unwrap(), 1325);
    assert!(combo_index(3, 3).is_err());
}

#[test]
fn cards_have_ranks_and_suits() {
    assert_eq!((rank_of(48), suit_of(48)), (12, 0));
    assert_eq!((rank_of(22), suit_of(22)), (5, 2));
    assert_eq!(swap_encoding(48), 51);
    assert_eq!(lib_card_to_string(51).unwrap(), "As");
    assert_eq!(lib_card_to_string(0).unwrap(), "2c");
}

#[test]
fn card_text_takes_either_case() {
    assert_eq!(card_from_str("aS").unwrap(), 48);
    assert_eq!(card_from_str("tH").unwrap(), 33);
    assert_eq!(board_from_str("aS 7D, 2c").is_err(), true);
    assert_eq!(board_from_str("as7D2C").unwrap(), vec![48, 22, 3]);
    assert_eq!(board_from_str(" As 7d\t2c ").unwrap(), vec![48, 22, 3]);
    assert_eq!(board_from_str("").unwrap(), Vec::<u8>::new());
}

#[test]
fn bad_cards_are_named() {
    assert_eq!(card_to_string(52), Err(Error::CardOutOfRange(52)));
    assert_eq!(card_from_str("A"), Err(Error::CardLength));
    assert_eq!(card_from_str("Xs"), Err(Error::UnknownRank('X')));
    assert_eq!(card_from_str("Ax"), Err(Error::UnknownSuit('x')));
    assert_eq!(board_from_str("As7"), Err(Error::BoardText));
    assert_eq!(board_to_string(&[48, 60]), Err(Error::CardOutOfRange(60)));
    assert_eq!(combo_index(52, 1), Err(Error::CardsOutOfRange(52, 1)));
    assert_eq!(combo_index(7, 7), Err(Error::SameCard(7)));
    assert_eq!(combo_from_index(1326), Err(Error::ComboOutOfRange(1326)));
}
