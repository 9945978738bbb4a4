use poker_engine::card::{
    card, cards_to_string, parse, parse_many, rank_index, rank_of, suit_index, suit_of, to_string,
    NO_CARD, RANK_CHARS, SUIT_CHARS,
};

#[test]
fn roundtrip_every_card() {
    for c in 0..52u8 {
        assert_eq!(parse(&to_string(c)), Some(c));
    }
}

#[test]
fn known_encodings() {
    assert_eq!(parse("2c"), Some(0));
    assert_eq!(parse("As"), Some(51));
    assert_eq!(rank_of(parse("Td").unwrap()), 8);
    assert_eq!(suit_of(parse("Td").unwrap()), 1);
}

#[test]
fn rejects_garbage() {
    assert_eq!(parse("Xs"), None);
    assert_eq!(parse("Az"), None);
    assert_eq!(parse("A"), None);
    assert_eq!(parse_many("AsK"), None);
}

#[test]
fn parses_a_board() {
    let b = parse_many("Ah Kd 7c 7d 2s").unwrap();
    assert_eq!(b.len(), 5);
    assert_eq!(cards_to_string(&b), "Ah Kd 7c 7d 2s");
}

#[test]
fn the_alphabets_are_those_of_the_notation() {
    assert_eq!(&RANK_CHARS[..], "23456789TJQKA".as_bytes());
    assert_eq!(&SUIT_CHARS[..], "cdhs".as_bytes());
    for (i, c) in "23456789TJQKA".chars().enumerate() {
        assert_eq!(rank_index(c), Some(i as u8));
        assert_eq!(rank_index(c.to_ascii_lowercase()), Some(i as u8));
    }
    for (i, c) in "cdhs".chars().enumerate() {
        assert_eq!(suit_index(c), Some(i as u8));
        assert_eq!(suit_index(c.to_ascii_uppercase()), Some(i as u8));
    }
    assert_eq!(rank_index('1'), None);
    assert_eq!(suit_index('x'), None);
}

#[test]
fn encoding_is_a_bijection() {
    let mut seen = [false; 52];
    for r in 0..13u8 {
        for s in 0..4u8 {
            let c = card(r, s);
            assert_eq!((rank_of(c), suit_of(c)), (r, s));
            assert!(!seen[c as usize]);
            seen[c as usize] = true;
        }
    }
    assert_eq!(seen, [true; 52]);
}

#[test]
fn the_placeholder_is_written_as_question_marks() {
    assert_eq!(NO_CARD, 52);
    assert_eq!(to_string(NO_CARD), "??");
    assert_eq!(to_string(255), "??");
    assert_eq!(parse("??"), None);
    assert_eq!(cards_to_string(&[51, 52, 0]), "As ?? 2c");
}

#[test]
fn case_is_ignored_when_parsing() {
    assert_eq!(parse("aS"), Some(51));
    assert_eq!(parse("tD"), parse("Td"));
    assert_eq!(parse_many("asKS"), parse_many("AsKs"));
}

#[test]
fn texts_that_are_not_two_letters_are_no_card() {
    assert_eq!(parse(""), None);
    assert_eq!(parse("Ass"), None);
    assert_eq!(parse("As "), None);
    assert_eq!(parse("é"), None);
    assert_eq!(parse("Aé"), None);
    assert_eq!(parse("éé"), None);
}

#[test]
fn a_run_of_cards_may_be_spaced_anyhow() {
    assert_eq!(parse_many(""), Some(vec![]));
    assert_eq!(parse_many(" \t\n"), Some(vec![]));
    assert_eq!(parse_many("A s K\u{3000}s"), Some(vec![51, 47]));
    assert_eq!(parse_many("AsXs"), None);
    assert_eq!(parse_many("é"), None);
    assert_eq!(parse_many("As,Ks"), None);
}

#[test]
fn white_space_is_that_of_unicode() {
    for u in 0..=0x10ffffu32 {
        if let Some(c) = char::from_u32(u) {
            let text = format!("As{c}Kd");
            assert_eq!(parse_many(&text).is_some(), c.is_whitespace(), "{u:#x}");
        }
    }
}

#[test]
fn reading_undoes_writing() {
    let mut cards: Vec<u8> = Vec::new();
    assert_eq!(cards_to_string(&cards), "");
    for c in (0..52u8).rev() {
        cards.push(c);
        assert_eq!(parse_many(&cards_to_string(&cards)), Some(cards.clone()));
    }
}
