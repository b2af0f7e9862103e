use postflop_solver::card::{
    card_from_chars, card_from_str, flop_from_str, initial_state_of, street_card_from_str,
    text_is_blank, BoardState, NOT_DEALT,
};
use postflop_solver::error::{Error, ErrorKind};

#[test]
fn card_encoding_is_four_times_rank_plus_suit() {
    assert_eq!(card_from_str("2c"), Ok(0));
    assert_eq!(card_from_str("2d"), Ok(1));
    assert_eq!(card_from_str("2h"), Ok(2));
    assert_eq!(card_from_str("2s"), Ok(3));
    assert_eq!(card_from_str("3c"), Ok(4));
    assert_eq!(card_from_str("Td"), Ok(33));
    assert_eq!(card_from_str("Qc"), Ok(40));
    assert_eq!(card_from_str("As"), Ok(51));
}

#[test]
fn every_card_text_is_read_back() {
    let ranks = ['2', '3', '4', '5', '6', '7', '8', '9', 'T', 'J', 'Q', 'K', 'A'];
    let suits = ['c', 'd', 'h', 's'];
    let mut expected: u8 = 0;
    for rank in ranks {
        for suit in suits {
            assert_eq!(card_from_chars(rank, suit), Some(expected));
            assert_eq!(card_from_str(&format!("{}{}", rank, suit)), Ok(expected));
            expected += 1;
        }
    }
    assert_eq!(expected, 52);
}

#[test]
fn rank_letters_are_read_in_either_case() {
    assert_eq!(card_from_str("ah"), card_from_str("Ah"));
    assert_eq!(card_from_str("kc"), Ok(44));
    assert_eq!(card_from_str("qd"), Ok(41));
    assert_eq!(card_from_str("js"), Ok(39));
    assert_eq!(card_from_str("th"), Ok(34));
}

#[test]
fn malformed_card_texts_are_rejected() {
    for text in ["", "A", "Ahh", "AH", "1c", "Xc", "Ax", "cA", " Ah", "Ah ", "10h"] {
        assert_eq!(card_from_str(text), Err(Error::MalformedCard), "text {:?}", text);
    }
    assert_eq!(card_from_chars('A', 'C'), None);
    assert_eq!(Error::MalformedCard.kind(), ErrorKind::InputParse);
}

#[test]
fn flop_is_read_and_sorted() {
    assert_eq!(flop_from_str("Td9d6h"), Ok([18, 29, 33]));
    assert_eq!(flop_from_str("6h9dTd"), Ok([18, 29, 33]));
    assert_eq!(flop_from_str("9dTd6h"), Ok([18, 29, 33]));
    assert_eq!(flop_from_str("2c2d2h"), Ok([0, 1, 2]));
    assert_eq!(flop_from_str("AdKdQd"), Ok([41, 45, 49]));
}

#[test]
fn flop_with_a_repeated_card_is_rejected() {
    assert_eq!(flop_from_str("TdTd6h"), Err(Error::DuplicateCard));
    assert_eq!(flop_from_str("Td6hTd"), Err(Error::DuplicateCard));
    assert_eq!(flop_from_str("6hTdTd"), Err(Error::DuplicateCard));
    assert_eq!(Error::DuplicateCard.kind(), ErrorKind::ConfigConflict);
}

#[test]
fn malformed_flop_texts_are_rejected() {
    for text in ["", "Td9d", "Td9d6", "Td9d6hQc", "Td 9d 6h", "Td9d6x", "TdTdTx"] {
        assert_eq!(flop_from_str(text), Err(Error::MalformedCard), "text {:?}", text);
    }
}

#[test]
fn blank_texts() {
    assert!(text_is_blank(""));
    assert!(text_is_blank(" \t\r\n"));
    assert!(text_is_blank("\u{a0}\u{2003}\u{3000}"));
    assert!(!text_is_blank(" a "));
    assert!(!text_is_blank("\u{200b}"));
    for code in 0u32..0x3100 {
        if let Some(c) = char::from_u32(code) {
            assert_eq!(text_is_blank(&c.to_string()), c.is_whitespace(), "code {:#x}", code);
        }
    }
}

#[test]
fn street_card_may_be_missing_or_blank() {
    assert_eq!(street_card_from_str(None), Ok(NOT_DEALT));
    assert_eq!(street_card_from_str(Some("")), Ok(NOT_DEALT));
    assert_eq!(street_card_from_str(Some("  ")), Ok(NOT_DEALT));
    assert_eq!(street_card_from_str(Some("Qc")), Ok(40));
    assert_eq!(street_card_from_str(Some(" Qc")), Err(Error::MalformedCard));
    assert_eq!(street_card_from_str(Some("Q")), Err(Error::MalformedCard));
}

#[test]
fn play_starts_on_the_street_of_the_latest_card() {
    assert_eq!(initial_state_of(NOT_DEALT, NOT_DEALT), BoardState::Flop);
    assert_eq!(initial_state_of(40, NOT_DEALT), BoardState::Turn);
    assert_eq!(initial_state_of(40, 3), BoardState::River);
    assert_eq!(initial_state_of(NOT_DEALT, 3), BoardState::River);
}

#[test]
fn streets_and_numbers_of_board_cards() {
    assert_eq!(BoardState::Flop.num_cards(), 3);
    assert_eq!(BoardState::Turn.num_cards(), 4);
    assert_eq!(BoardState::River.num_cards(), 5);
    assert_eq!(BoardState::from_num_cards(3), Some(BoardState::Flop));
    assert_eq!(BoardState::from_num_cards(4), Some(BoardState::Turn));
    assert_eq!(BoardState::from_num_cards(5), Some(BoardState::River));
    assert_eq!(BoardState::from_num_cards(2), None);
    assert_eq!(BoardState::from_num_cards(6), None);
    assert_eq!(BoardState::from_num_cards(0), None);
}
