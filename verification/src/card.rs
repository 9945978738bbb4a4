//! A card is a `u8` in `0..52`, encoded as `rank * 4 + suit`.
//!
//! Ranks run 0 (deuce) through 12 (ace); suits run 0..4 as clubs, diamonds,
//! hearts, spades. Packing rank into the high bits means `card >> 2` is the
//! rank and `card & 3` is the suit, both single instructions.

use vstd::prelude::*;

verus! {

/// The rank letters `23456789TJQKA`, as ASCII codes, deuce first.
pub const RANK_CHARS: [u8; 13] = [50, 51, 52, 53, 54, 55, 56, 57, 84, 74, 81, 75, 65];

/// The suit letters `cdhs`, as ASCII codes.
pub const SUIT_CHARS: [u8; 4] = [99, 100, 104, 115];

/// Sentinel for "no card". Never a legal index.
pub const NO_CARD: u8 = 52;

/// The card of rank `r` and suit `s`.
pub open spec fn code(r: int, s: int) -> u8 {
    (4 * r + s) as u8
}

/// The letter of rank `r`.
pub open spec fn rank_char(r: int) -> char {
    RANK_CHARS[r] as char
}

/// The letter of suit `s`.
pub open spec fn suit_char(s: int) -> char {
    SUIT_CHARS[s] as char
}

/// The rank that a letter stands for; upper and lower case mean the same.
pub open spec fn rank_of_char(c: char) -> Option<u8> {
    match c {
        '2' => Some(0u8),
        '3' => Some(1u8),
        '4' => Some(2u8),
        '5' => Some(3u8),
        '6' => Some(4u8),
        '7' => Some(5u8),
        '8' => Some(6u8),
        '9' => Some(7u8),
        'T' | 't' => Some(8u8),
        'J' | 'j' => Some(9u8),
        'Q' | 'q' => Some(10u8),
        'K' | 'k' => Some(11u8),
        'A' | 'a' => Some(12u8),
        _ => None,
    }
}

/// The suit that a letter stands for; upper and lower case mean the same.
pub open spec fn suit_of_char(c: char) -> Option<u8> {
    match c {
        'c' | 'C' => Some(0u8),
        'd' | 'D' => Some(1u8),
        'h' | 'H' => Some(2u8),
        's' | 'S' => Some(3u8),
        _ => None,
    }
}

/// The card named by a rank letter and a suit letter.
pub open spec fn card_of_chars(a: char, b: char) -> Option<u8> {
    match (rank_of_char(a), suit_of_char(b)) {
        (Some(r), Some(s)) => Some((r * 4 + s) as u8),
        _ => None,
    }
}

/// The card that a text names: exactly a rank letter and then a suit letter.
pub open spec fn card_of_text(t: Seq<char>) -> Option<u8> {
    if t.len() == 2 {
        card_of_chars(t[0], t[1])
    } else {
        None
    }
}

/// How a card is written; `??` stands for anything that is not a card.
pub open spec fn card_text(c: u8) -> Seq<char> {
    if c < 52 {
        seq![rank_char(c as int / 4), suit_char(c as int % 4)]
    } else {
        seq!['?', '?']
    }
}

/// How a run of cards is written: each card's text, single spaces between.
pub open spec fn cards_text(cards: Seq<u8>) -> Seq<char>
    decreases cards.len(),
{
    if cards.len() == 0 {
        seq![]
    } else if cards.len() == 1 {
        card_text(cards[0])
    } else {
        cards_text(cards.drop_last()) + seq![' '] + card_text(cards.last())
    }
}

/// The characters with Unicode's `White_Space` property.
pub open spec fn is_white_space(c: char) -> bool {
    ||| 0x09 <= c as u32 <= 0x0d
    ||| c as u32 == 0x20
    ||| c as u32 == 0x85
    ||| c as u32 == 0xa0
    ||| c as u32 == 0x1680
    ||| 0x2000 <= c as u32 <= 0x200a
    ||| c as u32 == 0x2028
    ||| c as u32 == 0x2029
    ||| c as u32 == 0x202f
    ||| c as u32 == 0x205f
    ||| c as u32 == 0x3000
}

/// A text without its white space.
pub open spec fn visible(t: Seq<char>) -> Seq<char> {
    t.filter(|c: char| !is_white_space(c))
}

/// The card named by the `i`-th pair of characters of `v`.
pub open spec fn nth_card(v: Seq<char>, i: int) -> Option<u8> {
    card_of_chars(v[2 * i], v[2 * i + 1])
}

/// The cards that a text names: without its white space it falls into pairs of
/// characters, each of which names a card.
pub open spec fn cards_of_text(t: Seq<char>) -> Option<Seq<u8>> {
    let v = visible(t);
    if v.len() % 2 == 0 && forall|i: int| 0 <= i < v.len() / 2 ==> nth_card(v, i) is Some {
        Some(Seq::new(v.len() / 2, |i: int| nth_card(v, i)->0))
    } else {
        None
    }
}

pub fn card(rank: u8, suit: u8) -> (c: u8)
    requires
        rank < 13,
        suit < 4,
    ensures
        c == rank * 4 + suit,
{
    rank * 4 + suit
}

pub fn rank_of(c: u8) -> (r: u8)
    ensures
        r == c / 4,
{
    assert(c >> 2 == c / 4) by (bit_vector);
    c >> 2
}

pub fn suit_of(c: u8) -> (s: u8)
    ensures
        s == c % 4,
{
    assert(c & 3 == c % 4) by (bit_vector);
    c & 3
}

/// The rank a letter stands for.
pub fn rank_index(c: char) -> (r: Option<u8>)
    ensures
        r == rank_of_char(c),
        r matches Some(rank) ==> rank < 13,
{
    match c {
        '2' => Some(0),
        '3' => Some(1),
        '4' => Some(2),
        '5' => Some(3),
        '6' => Some(4),
        '7' => Some(5),
        '8' => Some(6),
        '9' => Some(7),
        'T' | 't' => Some(8),
        'J' | 'j' => Some(9),
        'Q' | 'q' => Some(10),
        'K' | 'k' => Some(11),
        'A' | 'a' => Some(12),
        _ => None,
    }
}

/// The suit a letter stands for.
pub fn suit_index(c: char) -> (s: Option<u8>)
    ensures
        s == suit_of_char(c),
        s matches Some(suit) ==> suit < 4,
{
    match c {
        'c' | 'C' => Some(0),
        'd' | 'D' => Some(1),
        'h' | 'H' => Some(2),
        's' | 'S' => Some(3),
        _ => None,
    }
}

/// The card named by a rank letter and a suit letter.
pub(crate) fn card_index(a: char, b: char) -> (c: Option<u8>)
    ensures
        c == card_of_chars(a, b),
        c matches Some(x) ==> x < 52,
{
    match (rank_index(a), suit_index(b)) {
        (Some(r), Some(s)) => Some(card(r, s)),
        _ => None,
    }
}

/// True for the characters that separate cards and range tokens.
pub(crate) fn is_space(c: char) -> (b: bool)
    ensures
        b == is_white_space(c),
{
    let u: u32 = c as u32;
    (0x09 <= u && u <= 0x0d) || u == 0x20 || u == 0x85 || u == 0xa0 || u == 0x1680 || (0x2000 <= u
        && u <= 0x200a) || u == 0x2028 || u == 0x2029 || u == 0x202f || u == 0x205f || u == 0x3000
}

pub fn to_string(c: u8) -> (s: String)
    ensures
        s@ == card_text(c),
{
    proof {
        reveal_strlit("??");
        reveal_strlit("23456789TJQKA");
        reveal_strlit("cdhs");
    }
    if c >= 52 {
        return "??".to_string();
    }
    let r: usize = rank_of(c) as usize;
    let s: usize = suit_of(c) as usize;
    let mut text: String = "23456789TJQKA".substring_ascii(r, r + 1).to_string();
    text.append("cdhs".substring_ascii(s, s + 1));
    proof {
        assert(text@ =~= card_text(c));
    }
    text
}

/// Parse a single card such as `"As"` or `"Td"`.
pub fn parse(s: &str) -> (c: Option<u8>)
    ensures
        c == card_of_text(s@),
        c matches Some(x) ==> x < 52,
{
    if s.unicode_len() != 2 {
        return None;
    }
    card_index(s.get_char(0), s.get_char(1))
}

/// Parse a run of cards such as `"AsKsQsJsTs"`, with optional whitespace.
pub fn parse_many(s: &str) -> (cards: Option<Vec<u8>>)
    ensures
        cards matches Some(v) ==> cards_of_text(s@) == Some(v@) && forall|i: int|
            0 <= i < v.len() ==> v[i] < 52,
        cards is None ==> cards_of_text(s@) is None,
{
    let mut cleaned: Vec<char> = Vec::new();
    for c in it: s.chars()
        invariant
            it.seq() == s@,
            cleaned@ == visible(s@.take(it.index() as int)),
    {
        proof {
            let t = s@.take(it.index() + 1);
            assert(t.drop_last() =~= s@.take(it.index() as int));
            assert(t.last() == c);
            reveal(Seq::filter);
        }
        if !is_space(c) {
            cleaned.push(c);
        }
    }
    assert(s@.take(s@.len() as int) =~= s@);
    if cleaned.len() % 2 != 0 {
        return None;
    }
    let n: usize = cleaned.len() / 2;
    let mut cards: Vec<u8> = Vec::new();
    for i in 0..n
        invariant
            n == cleaned@.len() / 2,
            cleaned@.len() % 2 == 0,
            cleaned@ == visible(s@),
            cards.len() == i,
            forall|j: int| 0 <= j < i ==> nth_card(cleaned@, j) == Some(#[trigger] cards@[j]),
            forall|j: int| 0 <= j < i ==> cards[j] < 52,
    {
        match card_index(cleaned[2 * i], cleaned[2 * i + 1]) {
            Some(c) => cards.push(c),
            None => {
                assert(nth_card(cleaned@, i as int) is None);
                return None;
            },
        }
    }
    assert forall|j: int| 0 <= j < n implies nth_card(cleaned@, j) is Some by {
        assert(nth_card(cleaned@, j) == Some(cards@[j]));
    }
    assert(cards_of_text(s@)->0 =~= cards@);
    Some(cards)
}

pub fn cards_to_string(cards: &[u8]) -> (s: String)
    ensures
        s@ == cards_text(cards@),
{
    let mut text: String = String::new();
    proof {
        reveal_strlit(" ");
    }
    for i in 0..cards.len()
        invariant
            text@ == cards_text(cards@.take(i as int)),
            " "@ =~= seq![' '],
    {
        if i > 0 {
            text.append(" ");
        }
        text.append(to_string(cards[i]).as_str());
        proof {
            let t = cards@.take(i + 1);
            assert(t.drop_last() =~= cards@.take(i as int));
            assert(t.last() == cards@[i as int]);
            assert(text@ =~= cards_text(t));
        }
    }
    assert(cards@.take(cards@.len() as int) =~= cards@);
    text
}

/// Every card is a rank and a suit, and the encoding tells them apart.
pub proof fn law_encoding_is_a_bijection(rank: u8, suit: u8, c: u8)
    requires
        rank < 13,
        suit < 4,
        c < 52,
    ensures
        rank * 4 + suit < 52,
        (rank * 4 + suit) / 4 == rank,
        (rank * 4 + suit) % 4 == suit,
        c / 4 < 13,
        c % 4 < 4,
        (c / 4) * 4 + c % 4 == c,
{
}

/// Reading what was written gives the card back.
pub proof fn law_parse_undoes_to_string(c: u8)
    requires
        c < 52,
    ensures
        card_of_text(card_text(c)) == Some(c),
{
    lemma_letters(c as int / 4, c as int % 4);
}

/// What is not a card is never written like one.
pub proof fn law_placeholder_is_no_card(c: u8)
    requires
        c >= 52,
    ensures
        card_of_text(card_text(c)) is None,
{
}

/// An ASCII capital's small letter; every other character is kept.
pub open spec fn small_letter(c: char) -> char {
    if 'A' <= c <= 'Z' {
        (c as u32 + 32) as char
    } else {
        c
    }
}

/// Upper and lower case name the same card.
pub proof fn law_case_is_ignored(t: Seq<char>)
    ensures
        card_of_text(t.map_values(|c: char| small_letter(c))) == card_of_text(t),
{
}

/// Reading what was written gives the cards back.
pub proof fn law_parse_many_undoes_cards_to_string(cards: Seq<u8>)
    requires
        forall|i: int| 0 <= i < cards.len() ==> cards[i] < 52,
    ensures
        cards_of_text(cards_text(cards)) == Some(cards),
{
    let v = visible(cards_text(cards));
    lemma_visible_cards_text(cards);
    assert forall|i: int| 0 <= i < cards.len() implies nth_card(v, i) == Some(cards[i]) by {
        lemma_letters(cards[i] as int / 4, cards[i] as int % 4);
        assert(v[2 * i] == rank_char(cards[i] as int / 4));
        assert(v[2 * i + 1] == suit_char(cards[i] as int % 4));
    }
    assert(cards_of_text(cards_text(cards))->0 =~= cards);
}

/// White space aside, the text of a run of cards is their letters, in order.
proof fn lemma_visible_cards_text(cards: Seq<u8>)
    requires
        forall|i: int| 0 <= i < cards.len() ==> cards[i] < 52,
    ensures
        visible(cards_text(cards)).len() == 2 * cards.len(),
        forall|i: int|
            0 <= i < cards.len() ==> #[trigger] visible(cards_text(cards))[2 * i] == rank_char(
                cards[i] as int / 4,
            ) && visible(cards_text(cards))[2 * i + 1] == suit_char(cards[i] as int % 4),
    decreases cards.len(),
{
    if cards.len() == 0 {
        reveal(Seq::filter);
    } else {
        let before = cards.drop_last();
        let c = cards.last();
        let p = |c: char| !is_white_space(c);
        lemma_visible_cards_text(before);
        lemma_letters(c as int / 4, c as int % 4);
        assert(card_text(c).filter(p) =~= card_text(c)) by {
            reveal_with_fuel(Seq::filter, 3);
            assert(card_text(c).drop_last() =~= seq![card_text(c)[0]]);
            assert(seq![card_text(c)[0]].drop_last() =~= Seq::<char>::empty());
        }
        if cards.len() == 1 {
            assert(cards_text(cards) == card_text(c));
            assert(before.len() == 0);
        } else {
            assert(seq![' '].filter(p) =~= Seq::<char>::empty()) by {
                reveal_with_fuel(Seq::filter, 2);
                assert(seq![' '].drop_last() =~= Seq::<char>::empty());
            }
            Seq::filter_distributes_over_add(cards_text(before) + seq![' '], card_text(c), p);
            Seq::filter_distributes_over_add(cards_text(before), seq![' '], p);
            assert(visible(cards_text(cards)) =~= visible(cards_text(before)) + card_text(c));
        }
        assert forall|i: int| 0 <= i < cards.len() implies #[trigger] visible(
            cards_text(cards),
        )[2 * i] == rank_char(cards[i] as int / 4) && visible(cards_text(cards))[2 * i + 1]
            == suit_char(cards[i] as int % 4) by {
            if i < cards.len() - 1 {
                assert(before[i] == cards[i]);
                assert(visible(cards_text(before))[2 * i] == rank_char(before[i] as int / 4));
            }
        }
    }
}

proof fn lemma_letters(r: int, s: int)
    requires
        0 <= r < 13,
        0 <= s < 4,
    ensures
        rank_of_char(rank_char(r)) == Some(r as u8),
        suit_of_char(suit_char(s)) == Some(s as u8),
        !is_white_space(rank_char(r)),
        !is_white_space(suit_char(s)),
{
    assert(r == 0 || r == 1 || r == 2 || r == 3 || r == 4 || r == 5 || r == 6 || r == 7 || r == 8
        || r == 9 || r == 10 || r == 11 || r == 12);
    assert(s == 0 || s == 1 || s == 2 || s == 3);
}

} // verus!
