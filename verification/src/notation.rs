//! What range notation means, letter by letter.

use vstd::prelude::*;

use crate::card;
use crate::range;
use crate::range::Suits;

verus! {

/// The letter names rank `r`, deuce to ace.
pub open spec fn names_rank(c: char, r: int) -> bool {
    ||| r == 0 && c == '2'
    ||| r == 1 && c == '3'
    ||| r == 2 && c == '4'
    ||| r == 3 && c == '5'
    ||| r == 4 && c == '6'
    ||| r == 5 && c == '7'
    ||| r == 6 && c == '8'
    ||| r == 7 && c == '9'
    ||| r == 8 && (c == 'T' || c == 't')
    ||| r == 9 && (c == 'J' || c == 'j')
    ||| r == 10 && (c == 'Q' || c == 'q')
    ||| r == 11 && (c == 'K' || c == 'k')
    ||| r == 12 && (c == 'A' || c == 'a')
}

/// The letter names suit `s`: clubs, diamonds, hearts, spades.
pub open spec fn names_suit(c: char, s: int) -> bool {
    ||| s == 0 && (c == 'c' || c == 'C')
    ||| s == 1 && (c == 'd' || c == 'D')
    ||| s == 2 && (c == 'h' || c == 'H')
    ||| s == 3 && (c == 's' || c == 'S')
}

/// Which holdings a class takes in: all, those of one suit, those of two.
pub enum Kind {
    All,
    OneSuit,
    TwoSuits,
}

/// The text names a class of two ranks, in either order: two rank letters, and
/// behind different ones perhaps `s` or `o`.
pub open spec fn names_class(t: Seq<char>, hi: int, lo: int, kind: Kind) -> bool {
    &&& hi >= lo
    &&& t.len() == 2 || t.len() == 3
    &&& (names_rank(t[0], hi) && names_rank(t[1], lo)) || (names_rank(t[0], lo) && names_rank(
        t[1],
        hi,
    ))
    &&& kind is All <==> t.len() == 2
    &&& kind is OneSuit ==> t[2] == 's' || t[2] == 'S'
    &&& kind is TwoSuits ==> t[2] == 'o' || t[2] == 'O'
    &&& hi == lo ==> kind is All
}

/// The holding, its higher card first, is of two ranks and of the kind.
pub open spec fn is_of(p: (u8, u8), hi: int, lo: int, kind: Kind) -> bool {
    &&& p.1 < p.0 < 52
    &&& p.0 as int / 4 == hi
    &&& p.1 as int / 4 == lo
    &&& kind is OneSuit ==> p.0 as int % 4 == p.1 as int % 4
    &&& kind is TwoSuits ==> p.0 as int % 4 != p.1 as int % 4
}

/// The text names a card.
pub open spec fn names_card(a: char, b: char, c: u8) -> bool {
    exists|r: int, s: int| #[trigger]
        names_rank(a, r) && #[trigger] names_suit(b, s) && c == 4 * r + s
}

/// One token: no comma and no white space in it.
pub open spec fn is_one_token(t: Seq<char>) -> bool {
    &&& t.len() > 0
    &&& forall|i: int| 0 <= i < t.len() ==> #[trigger] t[i] != ',' && !card::is_white_space(t[i])
}

/// A text without separators is its only token.
proof fn lemma_only_token(t: Seq<char>)
    requires
        is_one_token(t),
    ensures
        range::is_range(t) <==> range::meaning(t) is Ok,
        forall|p: (u8, u8)| #[trigger]
            range::range_has(t, p) <==> range::meaning(t) is Ok && range::meaning(t)->Ok_0.has(p),
{
    let n = t.len() as int;
    assert(t.subrange(0, n) =~= t);
    assert(range::is_token(t, 0, n));
    assert forall|i: int, j: int| #[trigger] range::is_token(t, i, j) implies i == 0 && j == n by {
        if i > 0 {
            assert(!range::is_separator(t[i - 1]));
        }
        if j < n {
            assert(!range::is_separator(t[j]));
        }
    }
}

proof fn lemma_rank_letter(c: char, r: int)
    ensures
        names_rank(c, r) <==> card::rank_of_char(c) is Some && card::rank_of_char(c)->0 == r,
        names_rank(c, r) ==> 0 <= r < 13 && '\0' <= c <= '\u{7f}' && c != '+' && c != '-',
{
}

proof fn lemma_suit_letter(c: char, s: int)
    ensures
        names_suit(c, s) <==> card::suit_of_char(c) is Some && card::suit_of_char(c)->0 == s,
        names_suit(c, s) ==> 0 <= s < 4 && '\0' <= c <= '\u{7f}' && c != '+' && c != '-',
{
}

spec fn suits_of(kind: Kind) -> Suits {
    match kind {
        Kind::All => Suits::Both,
        Kind::OneSuit => Suits::Suited,
        Kind::TwoSuits => Suits::Offsuit,
    }
}

proof fn lemma_class(t: Seq<char>, hi: int, lo: int, kind: Kind)
    requires
        names_class(t, hi, lo, kind),
    ensures
        0 <= lo <= hi < 13,
        range::class_of(t) == Ok::<(u8, u8, Suits), Seq<char>>(
            (hi as u8, lo as u8, suits_of(kind)),
        ),
        forall|i: int| 0 <= i < t.len() ==> '\0' <= (#[trigger] t[i]) <= '\u{7f}' && t[i] != '+' && t[i]
            != '-',
{
    lemma_rank_letter(t[0], hi);
    lemma_rank_letter(t[1], lo);
    lemma_rank_letter(t[0], lo);
    lemma_rank_letter(t[1], hi);
    if t.len() == 3 {
        assert(kind is OneSuit || kind is TwoSuits);
    }
}

/// What `class_of` accepts names a class.
proof fn lemma_class_back(t: Seq<char>) -> (c: (int, int, Kind))
    requires
        range::class_of(t) is Ok,
    ensures
        names_class(t, c.0, c.1, c.2),
        range::class_of(t)->Ok_0 == (c.0 as u8, c.1 as u8, suits_of(c.2)),
        0 <= c.1 <= c.0 < 13,
{
    let (hi, lo, suits) = range::class_of(t)->Ok_0;
    let kind = match suits {
        Suits::Both => Kind::All,
        Suits::Suited => Kind::OneSuit,
        Suits::Offsuit => Kind::TwoSuits,
    };
    lemma_rank_letter(t[0], hi as int);
    lemma_rank_letter(t[1], lo as int);
    lemma_rank_letter(t[0], lo as int);
    lemma_rank_letter(t[1], hi as int);
    (hi as int, lo as int, kind)
}

proof fn lemma_ascii(t: Seq<char>)
    requires
        forall|i: int| 0 <= i < t.len() ==> '\0' <= (#[trigger] t[i]) <= '\u{7f}',
    ensures
        vstd::utf8::is_ascii_chars(t),
{
}

/// A class stands for the holdings of its two ranks and its kind.
#[verifier::rlimit(40)]
pub proof fn law_classes_mean(t: Seq<char>, hi: int, lo: int, kind: Kind)
    requires
        names_class(t, hi, lo, kind),
    ensures
        range::is_range(t),
        forall|p: (u8, u8)| #[trigger] range::range_has(t, p) <==> is_of(p, hi, lo, kind),
{
    lemma_class(t, hi, lo, kind);
    lemma_ascii(t);
    assert(is_one_token(t)) by {
        assert forall|i: int| 0 <= i < t.len() implies #[trigger] t[i] != ','
            && !card::is_white_space(t[i]) by {
            lemma_visible(t, hi, lo, kind, i);
        }
    }
    lemma_only_token(t);
    if t.contains('-') {
        let i = t.index_of('-');
        assert(t[i] == '-');
    }
    assert(t.last() == t[t.len() - 1]);
    assert(range::meaning(t) is Ok);
}

proof fn lemma_visible(t: Seq<char>, hi: int, lo: int, kind: Kind, i: int)
    requires
        names_class(t, hi, lo, kind),
        0 <= i < t.len(),
    ensures
        t[i] != ',',
        !card::is_white_space(t[i]),
{
    assert(i == 0 || i == 1 || i == 2);
    if i == 2 {
        assert(kind is OneSuit || kind is TwoSuits);
    }
}

/// A class with a plus stands, for a pair, for all pairs from it up; else for the
/// high card with every kicker from the one named to the one just under it, of
/// the same kind.
#[verifier::rlimit(40)]
pub proof fn law_classes_and_up_mean(t: Seq<char>, hi: int, lo: int, kind: Kind)
    requires
        t.len() > 0,
        t.last() == '+',
        names_class(t.drop_last(), hi, lo, kind),
    ensures
        range::is_range(t),
        forall|p: (u8, u8)|
            hi == lo ==> (#[trigger] range::range_has(t, p) <==> exists|r: int|
                hi <= r < 13 && #[trigger] is_of(p, r, r, Kind::All)),
        forall|p: (u8, u8)|
            hi != lo ==> (#[trigger] range::range_has(t, p) <==> exists|l: int|
                lo <= l < hi && #[trigger] is_of(p, hi, l, kind)),
{
    let b = t.drop_last();
    lemma_class(b, hi, lo, kind);
    assert(t =~= b.push('+'));
    assert forall|i: int| 0 <= i < t.len() implies '\0' <= (#[trigger] t[i]) <= '\u{7f}' && t[i] != ','
        && !card::is_white_space(t[i]) by {
        if i < b.len() {
            assert(b[i] == t[i]);
            lemma_visible(b, hi, lo, kind, i);
        }
    }
    lemma_ascii(t);
    lemma_only_token(t);
    if t.len() == 4 {
        assert(t[3] == '+');
        assert(card::card_of_chars(t[2], t[3]) is None);
    }
    let span = range::meaning(t)->Ok_0;
    assert(range::meaning(t) is Ok);
    assert forall|p: (u8, u8)| hi == lo implies (#[trigger] range::range_has(t, p) <==> exists|
        r: int,
    |
        hi <= r < 13 && #[trigger] is_of(p, r, r, Kind::All)) by {
        if span.has(p) {
            assert(is_of(p, p.0 as int / 4, p.0 as int / 4, Kind::All));
        }
    }
    assert forall|p: (u8, u8)| hi != lo implies (#[trigger] range::range_has(t, p) <==> exists|
        l: int,
    |
        lo <= l < hi && #[trigger] is_of(p, hi, l, kind)) by {
        if span.has(p) {
            assert(is_of(p, hi, p.1 as int / 4, kind));
        }
    }
}

/// Two texts with a dash between.
pub open spec fn is_dashed(t: Seq<char>, a: Seq<char>, b: Seq<char>) -> bool {
    t == a.push('-') + b
}

proof fn lemma_dashed(t: Seq<char>, a: Seq<char>, b: Seq<char>)
    requires
        is_dashed(t, a, b),
        forall|i: int| 0 <= i < a.len() ==> #[trigger] a[i] != '-',
    ensures
        t.contains('-'),
        range::first_dash(t) == a.len(),
        t.take(a.len() as int) == a,
        t.skip(a.len() + 1int) == b,
{
    let n = a.len() as int;
    assert(t[n] == '-');
    assert forall|j: int| 0 <= j < n implies #[trigger] t[j] != '-' by {
        assert(t[j] == a[j]);
    }
    assert(range::is_first_dash(t, n));
    let d = range::first_dash(t);
    assert(range::is_first_dash(t, d));
    assert(t.take(n) =~= a);
    assert(t.skip(n + 1) =~= b);
}

/// A span of two classes stands for both and all between: of pairs, for the pairs
/// of every rank from one end to the other; of classes with one high card and of
/// one kind, for that high card with every kicker from one end to the other, of
/// that kind.
#[verifier::rlimit(40)]
pub proof fn law_spans_mean(
    t: Seq<char>,
    a: Seq<char>,
    b: Seq<char>,
    hi: int,
    lo: int,
    high: int,
    low: int,
    kind: Kind,
)
    requires
        is_dashed(t, a, b),
        names_class(a, hi, lo, kind),
        names_class(b, high, low, kind),
        hi == lo && high == low || (hi != lo && high != low && hi == high),
    ensures
        range::is_range(t),
        forall|p: (u8, u8)|
            hi == lo ==> (#[trigger] range::range_has(t, p) <==> exists|r: int|
                (lo <= r <= low || low <= r <= lo) && #[trigger] is_of(p, r, r, Kind::All)),
        forall|p: (u8, u8)|
            hi != lo ==> (#[trigger] range::range_has(t, p) <==> exists|l: int|
                (lo <= l <= low || low <= l <= lo) && #[trigger] is_of(p, hi, l, kind)),
{
    lemma_class(a, hi, lo, kind);
    lemma_class(b, high, low, kind);
    lemma_dashed(t, a, b);
    let n = a.len() as int;
    assert forall|i: int| 0 <= i < t.len() implies '\0' <= (#[trigger] t[i]) <= '\u{7f}' && t[i] != ','
        && !card::is_white_space(t[i]) && t[i] != '+' by {
        if i < n {
            assert(t[i] == a[i]);
            lemma_visible(a, hi, lo, kind, i);
        } else if i > n {
            assert(t[i] == b[i - n - 1]);
            lemma_visible(b, high, low, kind, i - n - 1);
        }
    }
    lemma_ascii(t);
    lemma_only_token(t);
    assert(t.last() == t[t.len() - 1]);
    let span = range::meaning(t)->Ok_0;
    assert(range::meaning(t) == range::span_of(
        t,
        (hi as u8, lo as u8, suits_of(kind)),
        (high as u8, low as u8, suits_of(kind)),
    ));
    assert forall|p: (u8, u8)| hi == lo implies (#[trigger] range::range_has(t, p) <==> exists|
        r: int,
    |
        (lo <= r <= low || low <= r <= lo) && #[trigger] is_of(p, r, r, Kind::All)) by {
        if span.has(p) {
            assert(is_of(p, p.0 as int / 4, p.0 as int / 4, Kind::All));
        }
    }
    assert forall|p: (u8, u8)| hi != lo implies (#[trigger] range::range_has(t, p) <==> exists|
        l: int,
    |
        (lo <= l <= low || low <= l <= lo) && #[trigger] is_of(p, hi, l, kind)) by {
        if span.has(p) {
            assert(is_of(p, hi, p.1 as int / 4, kind));
        }
    }
}

/// Two different cards stand for the one holding of them, in either order.
pub proof fn law_explicit_holdings_mean(t: Seq<char>, c: u8, d: u8)
    requires
        t.len() == 4,
        names_card(t[0], t[1], c),
        names_card(t[2], t[3], d),
        c != d,
    ensures
        range::is_range(t),
        forall|p: (u8, u8)| #[trigger]
            range::range_has(t, p) <==> p.0 > p.1 && (p == (c, d) || p == (d, c)),
{
    lemma_card_letters(t[0], t[1], c);
    lemma_card_letters(t[2], t[3], d);
    assert forall|i: int| 0 <= i < t.len() implies '\0' <= (#[trigger] t[i]) <= '\u{7f}' && t[i] != ','
        && !card::is_white_space(t[i]) by {
        assert(i == 0 || i == 1 || i == 2 || i == 3);
    }
    lemma_ascii(t);
    lemma_only_token(t);
}

proof fn lemma_card_letters(a: char, b: char, c: u8)
    requires
        names_card(a, b, c),
    ensures
        card::card_of_chars(a, b) == Some(c),
        c < 52,
        '\0' <= a <= '\u{7f}' && a != ',' && !card::is_white_space(a),
        '\0' <= b <= '\u{7f}' && b != ',' && !card::is_white_space(b),
{
    let (r, s) = choose|r: int, s: int| #[trigger]
        names_rank(a, r) && #[trigger] names_suit(b, s) && c == 4 * r + s;
    lemma_rank_letter(a, r);
    lemma_suit_letter(b, s);
}

proof fn lemma_card_letters_back(a: char, b: char)
    requires
        card::card_of_chars(a, b) is Some,
    ensures
        names_card(a, b, card::card_of_chars(a, b)->0),
{
    let r = card::rank_of_char(a)->0 as int;
    let s = card::suit_of_char(b)->0 as int;
    lemma_rank_letter(a, r);
    lemma_suit_letter(b, s);
    assert(names_rank(a, r) && names_suit(b, s));
}

/// The text has one of the forms that notation knows.
pub open spec fn has_a_form(t: Seq<char>) -> bool {
    ||| exists|hi: int, lo: int, kind: Kind| #[trigger] names_class(t, hi, lo, kind)
    ||| t.last() == '+' && exists|hi: int, lo: int, kind: Kind| #[trigger]
        names_class(t.drop_last(), hi, lo, kind)
    ||| exists|a: Seq<char>, b: Seq<char>| #[trigger] is_dashed(t, a, b) && is_proper_span(a, b)
    ||| t.len() == 4 && exists|c: u8, d: u8|
        #![trigger names_card(t[0], t[1], c), names_card(t[2], t[3], d)]
        names_card(t[0], t[1], c) && names_card(t[2], t[3], d) && c != d
}

/// The ends go together: pairs, or classes of one kind with one high card.
pub open spec fn is_proper_span(a: Seq<char>, b: Seq<char>) -> bool {
    exists|hi: int, lo: int, high: int, low: int, kind: Kind|
        #![trigger names_class(a, hi, lo, kind), names_class(b, high, low, kind)]
        names_class(a, hi, lo, kind) && names_class(b, high, low, kind) && (hi == lo && high == low
            || (hi != lo && high != low && hi == high))
}

/// Whatever has none of the forms is refused.
#[verifier::rlimit(40)]
pub proof fn law_only_the_forms_are_accepted(t: Seq<char>)
    requires
        is_one_token(t),
        range::is_range(t),
    ensures
        has_a_form(t),
{
    lemma_only_token(t);
    if t.len() == 4 && card::card_of_chars(t[0], t[1]) is Some && card::card_of_chars(
        t[2],
        t[3],
    ) is Some {
        lemma_card_letters_back(t[0], t[1]);
        lemma_card_letters_back(t[2], t[3]);
    } else if t.last() == '+' {
        let c = lemma_class_back(t.drop_last());
        assert(names_class(t.drop_last(), c.0, c.1, c.2));
    } else if t.contains('-') {
        let i = t.index_of('-');
        lemma_some_dash(t, i);
        let d = range::first_dash(t);
        let (a, b) = (t.take(d), t.skip(d + 1));
        assert(t =~= a.push('-') + b);
        assert(is_dashed(t, a, b));
        let x = lemma_class_back(a);
        let y = lemma_class_back(b);
        assert(suits_of(x.2) == suits_of(y.2));
        assert(x.2 == y.2);
        assert(names_class(a, x.0, x.1, x.2) && names_class(b, y.0, y.1, x.2));
        assert(is_proper_span(a, b));
    } else {
        let c = lemma_class_back(t);
        assert(names_class(t, c.0, c.1, c.2));
    }
}

proof fn lemma_some_dash(t: Seq<char>, i: int)
    requires
        0 <= i < t.len(),
        t[i] == '-',
    ensures
        range::is_first_dash(t, range::first_dash(t)),
    decreases i,
{
    if forall|j: int| 0 <= j < i ==> #[trigger] t[j] != '-' {
        assert(range::is_first_dash(t, i));
    } else {
        let j = choose|j: int| 0 <= j < i && #[trigger] t[j] == '-';
        lemma_some_dash(t, j);
    }
}

/// From place `i` up to place `j` the text has a token: no comma and no white
/// space in it, and one or the end of the text on either side.
pub open spec fn has_token(t: Seq<char>, i: int, j: int) -> bool {
    &&& 0 <= i < j <= t.len()
    &&& is_one_token(t.subrange(i, j))
    &&& i == 0 || t[i - 1] == ',' || card::is_white_space(t[i - 1])
    &&& j == t.len() || t[j] == ',' || card::is_white_space(t[j])
}

/// A text means what its tokens mean: it is a range where each of them is, and
/// stands for what any of them does.
#[verifier::rlimit(40)]
pub proof fn law_texts_mean_what_their_tokens_mean(t: Seq<char>)
    ensures
        range::is_range(t) <==> forall|i: int, j: int| #[trigger]
            has_token(t, i, j) ==> range::is_range(t.subrange(i, j)),
        forall|p: (u8, u8)| #[trigger]
            range::range_has(t, p) <==> exists|i: int, j: int| #[trigger]
                has_token(t, i, j) && range::range_has(t.subrange(i, j), p),
{
    assert forall|i: int, j: int| #[trigger] has_token(t, i, j) <==> range::is_token(t, i, j) by {
        lemma_same_tokens(t, i, j);
    }
    assert forall|i: int, j: int| #[trigger] range::is_token(t, i, j) implies (range::is_range(
        t.subrange(i, j),
    ) <==> range::meaning(t.subrange(i, j)) is Ok) by {
        assert(has_token(t, i, j));
        lemma_only_token(t.subrange(i, j));
    }
    if range::is_range(t) {
        assert forall|i: int, j: int| #[trigger] has_token(t, i, j) implies range::is_range(
            t.subrange(i, j),
        ) by {
            assert(range::is_token(t, i, j));
        }
    }
    if forall|i: int, j: int| #[trigger]
        has_token(t, i, j) ==> range::is_range(t.subrange(i, j)) {
        assert forall|i: int, j: int| #[trigger] range::is_token(t, i, j) implies range::meaning(
            t.subrange(i, j),
        ) is Ok by {
            assert(has_token(t, i, j));
        }
    }
    assert forall|p: (u8, u8)| #[trigger] range::range_has(t, p) <==> exists|i: int, j: int|
        #[trigger] has_token(t, i, j) && range::range_has(t.subrange(i, j), p) by {
        if range::range_has(t, p) {
            let (i, j) = choose|i: int, j: int| #[trigger]
                range::is_token(t, i, j) && range::meaning(t.subrange(i, j)) is Ok
                    && range::meaning(t.subrange(i, j))->Ok_0.has(p);
            assert(has_token(t, i, j));
            lemma_only_token(t.subrange(i, j));
        }
        if exists|i: int, j: int| #[trigger]
            has_token(t, i, j) && range::range_has(t.subrange(i, j), p) {
            let (i, j) = choose|i: int, j: int| #[trigger]
                has_token(t, i, j) && range::range_has(t.subrange(i, j), p);
            assert(range::is_token(t, i, j));
            lemma_only_token(t.subrange(i, j));
        }
    }
}

/// The first fault of a text is its first token that is no range on its own.
pub proof fn law_the_first_fault_is_named(t: Seq<char>, i: int, j: int)
    ensures
        range::is_first_fault(t, i, j) <==> {
            &&& has_token(t, i, j)
            &&& !range::is_range(t.subrange(i, j))
            &&& forall|a: int, b: int| #[trigger]
                has_token(t, a, b) && a < i ==> range::is_range(t.subrange(a, b))
        },
{
    assert forall|a: int, b: int| #[trigger] has_token(t, a, b) implies range::is_token(t, a, b)
        && (range::is_range(t.subrange(a, b)) <==> range::meaning(t.subrange(a, b)) is Ok) by {
        lemma_same_tokens(t, a, b);
        lemma_only_token(t.subrange(a, b));
    }
    lemma_same_tokens(t, i, j);
    if range::is_first_fault(t, i, j) {
        assert(has_token(t, i, j));
    }
    if has_token(t, i, j) && !range::is_range(t.subrange(i, j)) && forall|a: int, b: int| #[trigger]
        has_token(t, a, b) && a < i ==> range::is_range(t.subrange(a, b)) {
        assert forall|a: int, b: int| #[trigger] range::is_token(t, a, b) && a < i implies
            range::meaning(t.subrange(a, b)) is Ok by {
            lemma_same_tokens(t, a, b);
            assert(has_token(t, a, b));
        }
    }
}

proof fn lemma_same_tokens(t: Seq<char>, i: int, j: int)
    ensures
        has_token(t, i, j) <==> range::is_token(t, i, j),
{
    let u = t.subrange(i, j);
    if has_token(t, i, j) {
        assert forall|k: int| i <= k < j implies !range::is_separator(#[trigger] t[k]) by {
            assert(u[k - i] == t[k]);
        }
    }
    if range::is_token(t, i, j) {
        assert forall|k: int| 0 <= k < u.len() implies #[trigger] u[k] != ','
            && !card::is_white_space(u[k]) by {
            assert(!range::is_separator(t[i + k]));
        }
    }
}

/// The text starts with another between backquotes.
pub open spec fn quotes(e: Seq<char>, u: Seq<char>) -> bool {
    &&& e.len() >= u.len() + 2
    &&& e[0] == '`'
    &&& e[u.len() + 1int] == '`'
    &&& forall|i: int| 0 <= i < u.len() ==> e[i + 1] == #[trigger] u[i]
}

/// A refusal says what it refuses: it starts with the token between backquotes, or
/// with the class in it that is none, before the plus or on a side of the dash.
#[verifier::rlimit(40)]
pub proof fn law_refusals_quote_what_is_refused(t: Seq<char>)
    requires
        is_one_token(t),
        !range::is_range(t),
    ensures
        range::meaning(t) is Err,
        ({
            let e = range::meaning(t)->Err_0;
            ||| quotes(e, t)
            ||| t.last() == '+' && quotes(e, t.drop_last())
            ||| exists|a: Seq<char>, b: Seq<char>| #[trigger]
                is_dashed(t, a, b) && (quotes(e, a) || quotes(e, b))
        }),
{
    reveal_strlit("`");
    lemma_only_token(t);
    let e = range::meaning(t)->Err_0;
    if range::class_of(t) is Err {
        lemma_class_refusal(t);
    }
    if t.last() == '+' && range::class_of(t.drop_last()) is Err {
        lemma_class_refusal(t.drop_last());
    }
    if t.contains('-') {
        lemma_some_dash(t, t.index_of('-'));
        let d = range::first_dash(t);
        let (a, b) = (t.take(d), t.skip(d + 1));
        assert(t =~= a.push('-') + b);
        assert(is_dashed(t, a, b));
        if range::class_of(a) is Err {
            lemma_class_refusal(a);
        } else if range::class_of(b) is Err {
            lemma_class_refusal(b);
        }
    }
}

proof fn lemma_class_refusal(u: Seq<char>)
    requires
        range::class_of(u) is Err,
    ensures
        quotes(range::class_of(u)->Err_0, u),
{
    reveal_strlit("`");
}

// ---- Cards ----

/// A text names a card where it is its rank letter and its suit letter, and no
/// other text does.
pub proof fn law_cards_are_named(t: Seq<char>, c: u8)
    ensures
        card::card_of_text(t) == Some(c) <==> t.len() == 2 && names_card(t[0], t[1], c),
{
    if t.len() == 2 {
        if names_card(t[0], t[1], c) {
            lemma_card_letters(t[0], t[1], c);
        }
        if card::card_of_text(t) == Some(c) {
            lemma_card_letters_back(t[0], t[1]);
        }
    }
}

/// The letter is a capital or no letter at all.
pub open spec fn is_upper(c: char) -> bool {
    !('a' <= c <= 'z')
}

/// A card is written with a capital rank and a small suit; anything else with
/// question marks.
pub proof fn law_cards_are_written(c: u8)
    ensures
        card::card_text(c).len() == 2,
        c < 52 ==> names_card(card::card_text(c)[0], card::card_text(c)[1], c) && is_upper(
            card::card_text(c)[0],
        ) && !is_upper(card::card_text(c)[1]),
        c >= 52 ==> card::card_text(c)[0] == '?' && card::card_text(c)[1] == '?',
{
    if c < 52 {
        let (r, s) = (c as int / 4, c as int % 4);
        assert(r == 0 || r == 1 || r == 2 || r == 3 || r == 4 || r == 5 || r == 6 || r == 7 || r
            == 8 || r == 9 || r == 10 || r == 11 || r == 12);
        assert(s == 0 || s == 1 || s == 2 || s == 3);
        assert(names_rank(card::rank_char(r), r));
        assert(names_suit(card::suit_char(s), s));
        assert(is_upper(card::rank_char(r)));
    }
}

/// A run of cards is written in order, two letters each and a space between.
pub proof fn law_runs_are_written_in_order(cards: Seq<u8>)
    ensures
        cards.len() > 0 ==> card::cards_text(cards).len() == 3 * cards.len() - 1,
        cards.len() == 0 ==> card::cards_text(cards).len() == 0,
        forall|i: int|
            0 <= i < cards.len() ==> card::cards_text(cards)[3 * i] == card::card_text(
                #[trigger] cards[i],
            )[0] && card::cards_text(cards)[3 * i + 1] == card::card_text(cards[i])[1],
        forall|i: int|
            0 <= i < cards.len() - 1 ==> #[trigger] card::cards_text(cards)[3 * i + 2] == ' ',
    decreases cards.len(),
{
    if cards.len() > 1 {
        let before = cards.drop_last();
        let t = card::cards_text(before);
        law_runs_are_written_in_order(before);
        assert forall|i: int| 0 <= i < cards.len() implies card::cards_text(cards)[3 * i]
            == card::card_text(#[trigger] cards[i])[0] && card::cards_text(cards)[3 * i + 1]
            == card::card_text(cards[i])[1] by {
            if i < before.len() {
                assert(before[i] == cards[i]);
            }
        }
        assert forall|i: int| 0 <= i < cards.len() - 1 implies #[trigger] card::cards_text(
            cards,
        )[3 * i + 2] == ' ' by {
            if i < before.len() - 1 {
                assert(t[3 * i + 2] == ' ');
            }
        }
    }
}

/// A text names a run of cards where its letters, white space aside, name them two
/// by two.
pub proof fn law_runs_are_named(t: Seq<char>, cards: Seq<u8>)
    ensures
        card::cards_of_text(t) == Some(cards) <==> {
            let v = card::visible(t);
            &&& v.len() == 2 * cards.len()
            &&& forall|i: int|
                0 <= i < cards.len() ==> names_card(v[2 * i], v[2 * i + 1], #[trigger] cards[i])
        },
{
    let v = card::visible(t);
    if card::cards_of_text(t) == Some(cards) {
        assert forall|i: int| 0 <= i < cards.len() implies names_card(
            v[2 * i],
            v[2 * i + 1],
            #[trigger] cards[i],
        ) by {
            assert(card::nth_card(v, i) is Some);
            lemma_card_letters_back(v[2 * i], v[2 * i + 1]);
        }
    }
    if v.len() == 2 * cards.len() && forall|i: int|
        0 <= i < cards.len() ==> names_card(v[2 * i], v[2 * i + 1], #[trigger] cards[i]) {
        assert forall|i: int| 0 <= i < v.len() / 2 implies card::nth_card(v, i) == Some(
            cards[i],
        ) by {
            assert(names_card(v[2 * i], v[2 * i + 1], cards[i]));
            lemma_card_letters(v[2 * i], v[2 * i + 1], cards[i]);
        }
        assert(card::cards_of_text(t)->0 =~= cards);
    }
}

/// Leaving out white space goes letter by letter and keeps the order.
pub proof fn law_white_space_is_left_out(a: Seq<char>, b: Seq<char>, c: char)
    ensures
        card::visible(a + b) == card::visible(a) + card::visible(b),
        card::is_white_space(c) ==> card::visible(seq![c]).len() == 0,
        !card::is_white_space(c) ==> card::visible(seq![c]) == seq![c],
{
    let p = |x: char| !card::is_white_space(x);
    Seq::filter_distributes_over_add(a, b, p);
    reveal_with_fuel(Seq::filter, 2);
    assert(seq![c].drop_last() =~= Seq::<char>::empty());
    assert(seq![c].last() == c);
    if !card::is_white_space(c) {
        assert(card::visible(seq![c]) =~= seq![c]);
    }
}

/// White space is the tab, the line ends, the space and the other blanks of
/// Unicode.
pub proof fn law_white_space_is_that_of_unicode(c: char)
    ensures
        card::is_white_space(c) <==> {
            ||| c == '\t' || c == '\n' || c == '\u{b}' || c == '\u{c}' || c == '\r' || c == ' '
            ||| c == '\u{85}' || c == '\u{a0}' || c == '\u{1680}'
            ||| c == '\u{2000}' || c == '\u{2001}' || c == '\u{2002}' || c == '\u{2003}'
            ||| c == '\u{2004}' || c == '\u{2005}' || c == '\u{2006}' || c == '\u{2007}'
            ||| c == '\u{2008}' || c == '\u{2009}' || c == '\u{200a}'
            ||| c == '\u{2028}' || c == '\u{2029}' || c == '\u{202f}' || c == '\u{205f}'
            ||| c == '\u{3000}'
        },
{
}

/// A range lists its holdings by their higher card and then by their lower one,
/// each once and the higher card first.
pub proof fn law_ranges_are_listed_in_order(s: Seq<(u8, u8)>)
    ensures
        range::canonical(s) <==> {
            &&& forall|i: int| 0 <= i < s.len() ==> (#[trigger] s[i]).1 < s[i].0 && s[i].0 < 52
            &&& forall|i: int, j: int|
                0 <= i < j < s.len() ==> 52 * (#[trigger] s[i]).0 + s[i].1 < 52 * (
                #[trigger] s[j]).0 + s[j].1
        },
{
    if forall|i: int| 0 <= i < s.len() ==> (#[trigger] s[i]).1 < s[i].0 && s[i].0 < 52 {
        assert forall|i: int, j: int| 0 <= i < j < s.len() implies (52 * (#[trigger] s[i]).0 + s[i].1
            < 52 * (#[trigger] s[j]).0 + s[j].1 <==> range::precedes(s[i], s[j])) by {}
    }
    if range::canonical(s) {
        assert forall|i: int| 0 <= i < s.len() implies (#[trigger] s[i]).1 < s[i].0 && s[i].0
            < 52 by {
            assert(range::is_holding(s[i]));
        }
        assert forall|i: int, j: int| 0 <= i < j < s.len() implies 52 * (#[trigger] s[i]).0 + s[i].1
            < 52 * (#[trigger] s[j]).0 + s[j].1 by {
            assert(range::precedes(s[i], s[j]));
        }
    }
}

} // verus!
