//! Sets of two-card holdings, and the notation for them.

use vstd::prelude::*;

use crate::card;
use crate::card::{card_index, is_space, rank_index};

verus! {

/// The cards of a holding.
pub open spec fn pair(c: [u8; 2]) -> (u8, u8) {
    (c[0], c[1])
}

pub open spec fn pairs(s: Seq<[u8; 2]>) -> Seq<(u8, u8)> {
    s.map_values(|c: [u8; 2]| pair(c))
}

/// Two different cards, the higher first.
pub open spec fn is_holding(p: (u8, u8)) -> bool {
    p.1 < p.0 < 52
}

/// The order in which holdings are listed.
pub open spec fn precedes(p: (u8, u8), q: (u8, u8)) -> bool {
    p.0 < q.0 || (p.0 == q.0 && p.1 < q.1)
}

/// A list of holdings in order, each once.
pub open spec fn canonical(s: Seq<(u8, u8)>) -> bool {
    &&& forall|i: int| 0 <= i < s.len() ==> is_holding(#[trigger] s[i])
    &&& forall|i: int, j: int| 0 <= i < j < s.len() ==> precedes(#[trigger] s[i], #[trigger] s[j])
}

/// Which suits a hand class may have.
#[derive(Clone, Copy, PartialEq, Eq, Structural, Debug)]
pub enum Suits {
    Suited,
    Offsuit,
    Both,
}

/// The holding's suits are among those asked for.
pub open spec fn suits_fit(suits: Suits, p: (u8, u8)) -> bool {
    match suits {
        Suits::Suited => p.0 % 4 == p.1 % 4,
        Suits::Offsuit => p.0 % 4 != p.1 % 4,
        Suits::Both => true,
    }
}

/// The holding is of the class: a pair of the rank where there is one, else the
/// two ranks in suits that fit.
pub open spec fn is_of_class(hi: u8, lo: u8, suits: Suits, p: (u8, u8)) -> bool {
    &&& is_holding(p)
    &&& p.0 / 4 == hi
    &&& p.1 / 4 == lo
    &&& hi != lo ==> suits_fit(suits, p)
}

/// What a token of range notation stands for.
pub enum Span {
    /// One holding.
    One(u8, u8),
    /// The pairs from a rank up to a rank.
    Pairs(u8, u8),
    /// A high card, kickers from a rank up to a rank, and the suits.
    Kickers(u8, u8, u8, Suits),
}

impl Span {
    /// The holding is among those that the span stands for.
    pub open spec fn has(self, p: (u8, u8)) -> bool {
        match self {
            Span::One(a, b) => p == (a, b),
            Span::Pairs(from, to) => is_holding(p) && p.0 / 4 == p.1 / 4 && from <= p.0 / 4 <= to,
            Span::Kickers(hi, from, to, suits) => {
                &&& is_holding(p)
                &&& p.0 / 4 == hi
                &&& from <= p.1 / 4 <= to
                &&& suits_fit(suits, p)
            },
        }
    }

    /// The holdings that the span stands for, in the order in which they are
    /// written out: rank by rank from the lowest.
    pub open spec fn holdings(self) -> Seq<(u8, u8)> {
        match self {
            Span::One(a, b) => seq![(a, b)],
            Span::Pairs(from, to) => pairs_between(from as int, to as int),
            Span::Kickers(hi, from, to, suits) => kickers_between(
                hi,
                from as int,
                to as int,
                suits,
            ),
        }
    }

    /// The ranks and cards of the span are such as a token can name.
    pub open spec fn is_proper(self) -> bool {
        match self {
            Span::One(a, b) => is_holding((a, b)),
            Span::Pairs(from, to) => from <= to < 13,
            Span::Kickers(hi, from, to, suits) => from <= to < hi < 13,
        }
    }
}

/// The holdings of a class as they are written out: a pair's by its higher suit,
/// suited ones by suit, offsuit ones by the suit of the high card; of a class
/// without a letter first the suited ones.
pub open spec fn class_holdings(hi: u8, lo: u8, suits: Suits) -> Seq<(u8, u8)> {
    let h = 4 * hi;
    let l = 4 * lo;
    let suited = Seq::new(4, |i: int| ((h + i) as u8, (l + i) as u8));
    let offsuit = Seq::new(
        12,
        |i: int|
            (
                (h + i / 3) as u8,
                (l + i % 3 + if i % 3 >= i / 3 {
                    1int
                } else {
                    0int
                }) as u8,
            ),
    );
    if hi == lo {
        seq![
            ((h + 1) as u8, h as u8),
            ((h + 2) as u8, h as u8),
            ((h + 2) as u8, (h + 1) as u8),
            ((h + 3) as u8, h as u8),
            ((h + 3) as u8, (h + 1) as u8),
            ((h + 3) as u8, (h + 2) as u8),
        ]
    } else {
        match suits {
            Suits::Suited => suited,
            Suits::Offsuit => offsuit,
            Suits::Both => suited + offsuit,
        }
    }
}

/// The pairs from one rank up to another.
pub open spec fn pairs_between(from: int, to: int) -> Seq<(u8, u8)>
    decreases to - from + 1,
{
    if from > to {
        seq![]
    } else {
        pairs_between(from, to - 1) + class_holdings(to as u8, to as u8, Suits::Both)
    }
}

/// A high card with the kickers from one rank up to another.
pub open spec fn kickers_between(hi: u8, from: int, to: int, suits: Suits) -> Seq<(u8, u8)>
    decreases to - from + 1,
{
    if from > to {
        seq![]
    } else {
        kickers_between(hi, from, to - 1, suits) + class_holdings(hi, to as u8, suits)
    }
}

/// A text between backquotes.
pub open spec fn quoted(t: Seq<char>) -> Seq<char> {
    "`"@ + t + "`"@
}

/// A hand class such as `AA`, `AKs`, or `T9o`, as its higher rank, its lower rank
/// and its suits; or what is wrong with it.
pub open spec fn class_of(t: Seq<char>) -> Result<(u8, u8, Suits), Seq<char>> {
    if t.len() < 2 || t.len() > 3 {
        Err(quoted(t) + " is not a hand class like `AA`, `AKs`, or `T9o`"@)
    } else if card::rank_of_char(t[0]) is None {
        Err(quoted(t) + ": `"@ + seq![t[0]] + "` is not a rank"@)
    } else if card::rank_of_char(t[1]) is None {
        Err(quoted(t) + ": `"@ + seq![t[1]] + "` is not a rank"@)
    } else if t.len() == 3 && suits_of_char(t[2]) is None {
        Err(
            quoted(t) + " ends in `"@ + seq![card::small_letter(t[2])]
                + "`, expected `s` or `o`"@,
        )
    } else {
        let r = card::rank_of_char(t[0])->0;
        let q = card::rank_of_char(t[1])->0;
        let suits = if t.len() == 3 {
            suits_of_char(t[2])->0
        } else {
            Suits::Both
        };
        if r == q && suits != Suits::Both {
            Err(quoted(t) + ": a pair cannot be suited or offsuit"@)
        } else if r >= q {
            Ok((r, q, suits))
        } else {
            Ok((q, r, suits))
        }
    }
}

/// The suits that a class's third letter asks for.
pub open spec fn suits_of_char(c: char) -> Option<Suits> {
    match c {
        's' | 'S' => Some(Suits::Suited),
        'o' | 'O' => Some(Suits::Offsuit),
        _ => None,
    }
}

/// The first dash of a text.
pub open spec fn is_first_dash(t: Seq<char>, i: int) -> bool {
    &&& 0 <= i < t.len()
    &&& t[i] == '-'
    &&& forall|j: int| 0 <= j < i ==> #[trigger] t[j] != '-'
}

pub open spec fn first_dash(t: Seq<char>) -> int {
    choose|i: int| is_first_dash(t, i)
}

/// What the two ends of a span stand for together.
pub open spec fn span_of(
    t: Seq<char>,
    a: (u8, u8, Suits),
    b: (u8, u8, Suits),
) -> Result<Span, Seq<char>> {
    let from = if a.1 <= b.1 {
        a.1
    } else {
        b.1
    };
    let to = if a.1 <= b.1 {
        b.1
    } else {
        a.1
    };
    if a.2 != b.2 {
        Err(quoted(t) + " mixes suited and offsuit ends"@)
    } else if (a.0 == a.1) != (b.0 == b.1) {
        Err(quoted(t) + " mixes pairs and non-pairs"@)
    } else if a.0 == a.1 {
        Ok(Span::Pairs(from, to))
    } else if a.0 != b.0 {
        Err(quoted(t) + ": both ends must share a high card, like `AJs-A9s`"@)
    } else {
        Ok(Span::Kickers(a.0, from, to, a.2))
    }
}

/// What a token stands for, or what is wrong with it: an explicit holding, a
/// class and up, a span of classes, or a class.
pub open spec fn meaning(t: Seq<char>) -> Result<Span, Seq<char>> {
    if !vstd::utf8::is_ascii_chars(t) {
        Err(quoted(t) + " is not ASCII"@)
    } else if t.len() == 4 && card::card_of_chars(t[0], t[1]) is Some && card::card_of_chars(
        t[2],
        t[3],
    ) is Some {
        let a = card::card_of_chars(t[0], t[1])->0;
        let b = card::card_of_chars(t[2], t[3])->0;
        if a == b {
            Err(quoted(t) + " uses the same card twice"@)
        } else if a > b {
            Ok(Span::One(a, b))
        } else {
            Ok(Span::One(b, a))
        }
    } else if t.len() > 0 && t.last() == '+' {
        match class_of(t.drop_last()) {
            Ok((hi, lo, suits)) => Ok(
                if hi == lo {
                    Span::Pairs(hi, 12)
                } else {
                    Span::Kickers(hi, lo, (hi - 1) as u8, suits)
                },
            ),
            Err(e) => Err(e),
        }
    } else if t.contains('-') {
        match class_of(t.take(first_dash(t))) {
            Ok(a) => match class_of(t.skip(first_dash(t) + 1)) {
                Ok(b) => span_of(t, a, b),
                Err(e) => Err(e),
            },
            Err(e) => Err(e),
        }
    } else {
        match class_of(t) {
            Ok((hi, lo, suits)) => Ok(
                if hi == lo {
                    Span::Pairs(hi, hi)
                } else {
                    Span::Kickers(hi, lo, lo, suits)
                },
            ),
            Err(e) => Err(e),
        }
    }
}

/// Tokens are separated by commas or white space.
pub open spec fn is_separator(c: char) -> bool {
    c == ',' || card::is_white_space(c)
}

/// There is a token from place `i` up to place `j`: a run without separators
/// that cannot be made longer.
pub open spec fn is_token(t: Seq<char>, i: int, j: int) -> bool {
    &&& 0 <= i < j <= t.len()
    &&& forall|k: int| i <= k < j ==> !is_separator(#[trigger] t[k])
    &&& i > 0 ==> is_separator(t[i - 1])
    &&& j < t.len() ==> is_separator(t[j])
}

/// Every token of the text means something.
pub open spec fn is_range(t: Seq<char>) -> bool {
    forall|i: int, j: int| #[trigger] is_token(t, i, j) ==> meaning(t.subrange(i, j)) is Ok
}

/// Some token of the text stands for the holding.
pub open spec fn range_has(t: Seq<char>, p: (u8, u8)) -> bool {
    exists|i: int, j: int| #[trigger]
        is_token(t, i, j) && meaning(t.subrange(i, j)) is Ok && meaning(t.subrange(i, j))->Ok_0.has(
            p,
        )
}

/// The first token of the text that means nothing is the one from `i` to `j`.
pub open spec fn is_first_fault(t: Seq<char>, i: int, j: int) -> bool {
    &&& is_token(t, i, j)
    &&& meaning(t.subrange(i, j)) is Err
    &&& forall|a: int, b: int| #[trigger]
        is_token(t, a, b) && a < i ==> meaning(t.subrange(a, b)) is Ok
}

/// A set of two-card holdings. Combos are stored canonically as
/// `[higher card, lower card]`, sorted and deduplicated, so two ranges written
/// differently but meaning the same thing compare equal.
#[derive(Debug, PartialEq, Eq)]
pub struct Range {
    combos: Vec<[u8; 2]>,
}

impl Clone for Range {
    fn clone(&self) -> (range: Range)
        ensures
            range@ == self@,
    {
        proof {
            use_type_invariant(self);
        }
        let mut combos: Vec<[u8; 2]> = Vec::new();
        for i in 0..self.combos.len()
            invariant
                combos@ == self.combos@.take(i as int),
        {
            combos.push(self.combos[i]);
        }
        assert(combos@ =~= self.combos@);
        Range { combos }
    }
}

impl View for Range {
    type V = Seq<(u8, u8)>;

    closed spec fn view(&self) -> Seq<(u8, u8)> {
        pairs(self.combos@)
    }
}

impl Range {
    #[verifier::type_invariant]
    spec fn is_canonical(self) -> bool {
        canonical(pairs(self.combos@))
    }

    pub fn combos(&self) -> (combos: &[[u8; 2]])
        ensures
            pairs(combos@) == self@,
            canonical(self@),
    {
        proof {
            use_type_invariant(self);
        }
        self.combos.as_slice()
    }

    pub fn len(&self) -> (n: usize)
        ensures
            n == self@.len(),
    {
        self.combos.len()
    }

    pub fn is_empty(&self) -> (b: bool)
        ensures
            b == (self@.len() == 0),
    {
        self.combos.len() == 0
    }

    /// All 1,326 two-card combinations.
    pub fn all() -> (range: Range)
        ensures
            canonical(range@),
            forall|p: (u8, u8)| #[trigger] range@.contains(p) <==> is_holding(p),
            range@.len() == 1326,
    {
        let mut combos: Vec<[u8; 2]> = Vec::new();
        assert(0 * (0 - 1) == 0) by (nonlinear_arith);
        for a in 0..52u8
            invariant
                canonical(pairs(combos@)),
                2 * combos.len() == a * (a - 1),
                forall|p: (u8, u8)| #[trigger] pairs(combos@).contains(p) <==> p.1 < p.0 < a,
        {
            proof {
                assert((a + 1) * (a + 1 - 1) == a * (a - 1) + 2 * a) by (nonlinear_arith);
            }
            for b in 0..a
                invariant
                    a < 52,
                    canonical(pairs(combos@)),
                    2 * combos.len() == a * (a - 1) + 2 * b,
                    forall|p: (u8, u8)| #[trigger]
                        pairs(combos@).contains(p) <==> p.1 < p.0 < a || (p.0 == a && p.1 < b),
            {
                let ghost before = pairs(combos@);
                combos.push([a, b]);
                proof {
                    let after = pairs(combos@);
                    assert(after =~= before.push((a, b)));
                    assert forall|i: int| 0 <= i < before.len() implies precedes(
                        #[trigger] before[i],
                        (a, b),
                    ) by {
                        assert(before.contains(before[i]));
                    }
                    assert forall|p: (u8, u8)| #[trigger] after.contains(p) <==> p.1 < p.0 < a || (p.0
                        == a && p.1 < b + 1) by {
                        lemma_push_contains(before, (a, b), p);
                    }
                }
            }
        }
        assert(52 * (52 - 1) == 2652) by (nonlinear_arith);
        Range { combos }
    }

    /// Drop every combo using one of `blocked`. This is card removal at the
    /// range level: a king on the board is a king no opponent can hold.
    pub fn without(&self, blocked: &[u8]) -> (range: Range)
        ensures
            range@ == kept(self@, blocked@),
            canonical(range@),
            forall|p: (u8, u8)| #[trigger]
                range@.contains(p) <==> self@.contains(p) && !blocked@.contains(p.0)
                    && !blocked@.contains(p.1),
    {
        proof {
            use_type_invariant(self);
        }
        let mut gone: [bool; 52] = [false; 52];
        for i in 0..blocked.len()
            invariant
                forall|c: u8|
                    c < 52 ==> #[trigger] gone[c as int] == blocked@.take(i as int).contains(c),
        {
            let c: u8 = blocked[i];
            proof {
                assert(blocked@.take(i + 1) =~= blocked@.take(i as int).push(c));
                assert forall|d: u8| #[trigger] blocked@.take(i + 1).contains(d) == (d == c
                    || blocked@.take(i as int).contains(d)) by {
                    lemma_push_contains(blocked@.take(i as int), c, d);
                }
            }
            if c < 52 {
                gone[c as usize] = true;
            }
        }
        assert(blocked@.take(blocked@.len() as int) =~= blocked@);
        let mut combos: Vec<[u8; 2]> = Vec::new();
        for i in 0..self.combos.len()
            invariant
                canonical(pairs(self.combos@)),
                forall|c: u8| c < 52 ==> #[trigger] gone[c as int] == blocked@.contains(c),
                pairs(combos@) == kept(pairs(self.combos@).take(i as int), blocked@),
        {
            let c: [u8; 2] = self.combos[i];
            proof {
                let t = pairs(self.combos@).take(i + 1);
                assert(t.drop_last() =~= pairs(self.combos@).take(i as int));
                assert(t.last() == pair(c));
                assert(is_holding(pairs(self.combos@)[i as int]));
            }
            if !gone[c[0] as usize] && !gone[c[1] as usize] {
                let ghost before = pairs(combos@);
                combos.push(c);
                assert(pairs(combos@) =~= before.push(pair(c)));
            }
        }
        proof {
            assert(pairs(self.combos@).take(self.combos@.len() as int) =~= pairs(self.combos@));
            law_card_removal_is_exact(pairs(self.combos@), blocked@);
        }
        Range { combos }
    }

    /// Parse standard range notation. Tokens are separated by commas or
    /// whitespace and may be:
    ///
    /// | Form | Example | Meaning |
    /// | --- | --- | --- |
    /// | pair | `AA` | all six combos |
    /// | suited / offsuit | `AKs`, `AKo` | four / twelve combos |
    /// | unqualified | `AK` | all sixteen |
    /// | explicit combo | `AsKh` | exactly that one |
    /// | pair and up | `TT+` | `TT` through `AA` |
    /// | kicker and up | `AJs+` | `AJs`, `AQs`, `AKs` |
    /// | span | `77-JJ`, `AJs-A9s` | both ends and all between |
    ///
    /// Spans of non-pairs must share their high card. Gapped-connector spans
    /// such as `T9s-76s` are not accepted, because the notation is ambiguous
    /// about whether the gap or the ranks are what is being held fixed.
    pub fn parse(spec: &str) -> (range: Result<Range, String>)
        ensures
            range matches Ok(r) ==> is_range(spec@) && canonical(r@) && forall|p: (u8, u8)| #[trigger]
                r@.contains(p) <==> range_has(spec@, p),
            range matches Err(e) ==> exists|i: int, j: int| #[trigger]
                is_first_fault(spec@, i, j) && meaning(spec@.subrange(i, j)) == Err::<
                    Span,
                    Seq<char>,
                >(e@),
    {
        let n: usize = spec.unicode_len();
        let mut combos: Vec<[u8; 2]> = Vec::new();
        let mut start: usize = 0;
        let mut i: usize = 0;
        for c in it: spec.chars()
            invariant
                it.seq() == spec@,
                i == it.index(),
                n == spec@.len(),
                start <= i,
                forall|k: int| start <= k < i ==> !is_separator(#[trigger] spec@[k]),
                start > 0 ==> is_separator(spec@[start - 1]),
                are_holdings(combos@),
                forall|a: int, b: int| #[trigger]
                    is_token(spec@, a, b) && a < start ==> meaning(spec@.subrange(a, b)) is Ok,
                forall|p: (u8, u8)| #[trigger]
                    holds(combos@, p) <==> has_before(spec@, start as int, p),
        {
            if c == ',' || is_space(c) {
                let ghost was = combos@;
                proof {
                    lemma_run_is_token(spec@, start as int, i as int);
                }
                if i > start {
                    if let Err(e) = parse_token(spec.substring_char(start, i), &mut combos) {
                        assert(is_first_fault(spec@, start as int, i as int));
                        return Err(e);
                    }
                }
                proof {
                    lemma_still_holdings(was, combos@);
                    assert forall|p: (u8, u8)| #[trigger] holds(combos@, p) <==> has_before(
                        spec@,
                        i + 1,
                        p,
                    ) by {
                        lemma_has_step(spec@, start as int, i as int, p);
                        assert(holds(was, p) <==> has_before(spec@, start as int, p));
                    }
                }
                start = i + 1;
            }
            i += 1;
        }
        let ghost was = combos@;
        proof {
            lemma_run_is_token(spec@, start as int, n as int);
        }
        if n > start {
            if let Err(e) = parse_token(spec.substring_char(start, n), &mut combos) {
                assert(is_first_fault(spec@, start as int, n as int));
                return Err(e);
            }
        }
        proof {
            assert forall|p: (u8, u8)| #[trigger] pairs(combos@).contains(p) <==> range_has(spec@, p) by {
                lemma_has_step(spec@, start as int, n as int, p);
                assert(holds(was, p) <==> has_before(spec@, start as int, p));
                assert(holds(combos@, p) <==> has_before(spec@, n + 1, p));
                lemma_has_all(spec@, p);
            }
        }
        proof {
            lemma_still_holdings(was, combos@);
        }
        let combos = sorted(&combos);
        proof {
            assert forall|p: (u8, u8)| #[trigger] pairs(combos@).contains(p) <==> range_has(
                spec@,
                p,
            ) by {
                assert(holds(combos@, p) <==> pairs(combos@).contains(p));
            }
        }
        Ok(Range { combos })
    }
}

/// Some token that starts before place `s` stands for the holding.
spec fn has_before(t: Seq<char>, s: int, p: (u8, u8)) -> bool {
    exists|i: int, j: int| #[trigger]
        is_token(t, i, j) && i < s && meaning(t.subrange(i, j)) is Ok && meaning(
            t.subrange(i, j),
        )->Ok_0.has(p)
}

proof fn lemma_has_all(t: Seq<char>, p: (u8, u8))
    ensures
        has_before(t, t.len() + 1int, p) <==> range_has(t, p),
{
    if range_has(t, p) {
        let (i, j) = choose|i: int, j: int| #[trigger]
            is_token(t, i, j) && meaning(t.subrange(i, j)) is Ok && meaning(
                t.subrange(i, j),
            )->Ok_0.has(p);
        assert(is_token(t, i, j) && i < t.len() + 1);
    }
}

/// A run between separators is a token, and no other token starts in it.
proof fn lemma_run_is_token(t: Seq<char>, start: int, i: int)
    requires
        0 <= start <= i <= t.len(),
        forall|k: int| start <= k < i ==> !is_separator(#[trigger] t[k]),
        start > 0 ==> is_separator(t[start - 1]),
        i < t.len() ==> is_separator(t[i]),
    ensures
        start < i ==> is_token(t, start, i),
        forall|a: int, b: int| #[trigger]
            is_token(t, a, b) && start <= a <= i ==> start < i && a == start && b == i,
{
    assert forall|a: int, b: int| #[trigger] is_token(t, a, b) && start <= a <= i implies start < i && a
        == start && b == i by {
        if a < t.len() {
            assert(!is_separator(t[a]));
        }
        if a > start {
            assert(!is_separator(t[a - 1]));
        }
        if b < i {
            assert(!is_separator(t[b]));
        }
        if b > i {
            assert(!is_separator(t[i]));
        }
    }
}

proof fn lemma_has_step(t: Seq<char>, start: int, i: int, p: (u8, u8))
    requires
        0 <= start <= i <= t.len(),
        forall|k: int| start <= k < i ==> !is_separator(#[trigger] t[k]),
        start > 0 ==> is_separator(t[start - 1]),
        i < t.len() ==> is_separator(t[i]),
    ensures
        has_before(t, i + 1, p) <==> has_before(t, start, p) || (start < i && meaning(
            t.subrange(start, i),
        ) is Ok && meaning(t.subrange(start, i))->Ok_0.has(p)),
{
    lemma_run_is_token(t, start, i);
    if has_before(t, i + 1, p) {
        let (a, b) = choose|a: int, b: int| #[trigger]
            is_token(t, a, b) && a < i + 1 && meaning(t.subrange(a, b)) is Ok && meaning(
                t.subrange(a, b),
            )->Ok_0.has(p);
        if a < start {
            assert(is_token(t, a, b) && a < start);
        }
    }
    if has_before(t, start, p) {
        let (a, b) = choose|a: int, b: int| #[trigger]
            is_token(t, a, b) && a < start && meaning(t.subrange(a, b)) is Ok && meaning(
                t.subrange(a, b),
            )->Ok_0.has(p);
        assert(is_token(t, a, b) && a < i + 1);
    }
    if start < i {
        assert(is_token(t, start, i) && start < i + 1);
    }
}

/// The holdings of a list that use no blocked card.
pub open spec fn kept(s: Seq<(u8, u8)>, blocked: Seq<u8>) -> Seq<(u8, u8)>
    decreases s.len(),
{
    if s.len() == 0 {
        seq![]
    } else if blocked.contains(s.last().0) || blocked.contains(s.last().1) {
        kept(s.drop_last(), blocked)
    } else {
        kept(s.drop_last(), blocked).push(s.last())
    }
}

pub proof fn lemma_push_contains<A>(s: Seq<A>, x: A, p: A)
    ensures
        s.push(x).contains(p) <==> s.contains(p) || p == x,
{
    if s.contains(p) {
        let i = s.index_of(p);
        assert(s.push(x)[i] == p);
    }
    if p == x {
        assert(s.push(x)[s.len() as int] == p);
    }
    if s.push(x).contains(p) {
        let i = s.push(x).index_of(p);
        if i < s.len() {
            assert(s[i] == p);
        }
    }
}

/// Card removal keeps a range in order and takes out just the holdings that use
/// a blocked card.
pub proof fn law_card_removal_is_exact(s: Seq<(u8, u8)>, blocked: Seq<u8>)
    requires
        canonical(s),
    ensures
        canonical(kept(s, blocked)),
        forall|p: (u8, u8)| #[trigger]
            kept(s, blocked).contains(p) <==> s.contains(p) && !blocked.contains(p.0)
                && !blocked.contains(p.1),
    decreases s.len(),
{
    if s.len() > 0 {
        let before = s.drop_last();
        let p = s.last();
        assert(s =~= before.push(p));
        assert forall|i: int| 0 <= i < before.len() implies is_holding(#[trigger] before[i])
            && precedes(before[i], p) by {
            assert(before[i] == s[i]);
            assert(precedes(s[i], s[s.len() - 1]));
        }
        assert forall|i: int, j: int| 0 <= i < j < before.len() implies precedes(
            #[trigger] before[i],
            #[trigger] before[j],
        ) by {
            assert(precedes(s[i], s[j]));
        }
        law_card_removal_is_exact(before, blocked);
        let k = kept(before, blocked);
        assert forall|i: int| 0 <= i < k.len() implies precedes(#[trigger] k[i], p) by {
            assert(k.contains(k[i]));
            let m = before.index_of(k[i]);
            assert(before[m] == k[i]);
        }
        assert(is_holding(s[s.len() - 1]));
        assert forall|q: (u8, u8)| #[trigger] kept(s, blocked).contains(q) <==> s.contains(q)
            && !blocked.contains(q.0) && !blocked.contains(q.1) by {
            lemma_push_contains(before, p, q);
            lemma_push_contains(k, p, q);
        }
    }
}

/// The holding `p` is in the list.
pub open spec fn holds(s: Seq<[u8; 2]>, p: (u8, u8)) -> bool {
    pairs(s).contains(p)
}

/// Put a holding into an ordered list, unless it is there.
fn put(out: &mut Vec<[u8; 2]>, c: [u8; 2])
    requires
        canonical(pairs(old(out)@)),
        is_holding(pair(c)),
    ensures
        canonical(pairs(final(out)@)),
        forall|p: (u8, u8)| #[trigger] holds(final(out)@, p) <==> holds(old(out)@, p) || p == pair(c),
{
    let ghost was = pairs(out@);
    let mut i: usize = 0;
    while i < out.len() && (out[i][0] < c[0] || (out[i][0] == c[0] && out[i][1] < c[1]))
        invariant
            out@ == old(out)@,
            was == pairs(out@),
            i <= out.len(),
            forall|j: int| 0 <= j < i ==> precedes(#[trigger] was[j], pair(c)),
        decreases out.len() - i,
    {
        assert(was[i as int] == pair(out[i as int]));
        i += 1;
    }
    if i < out.len() && out[i][0] == c[0] && out[i][1] == c[1] {
        proof {
            assert(was[i as int] == pair(c));
            assert(was.contains(pair(c)));
        }
        return ;
    }
    proof {
        if i < out.len() {
            assert(was[i as int] == pair(out[i as int]));
            assert(precedes(pair(c), was[i as int]));
        }
    }
    out.insert(i, c);
    proof {
        let now = pairs(out@);
        assert(now =~= was.insert(i as int, pair(c)));
        assert forall|a: int, b: int| 0 <= a < b < now.len() implies precedes(
            #[trigger] now[a],
            #[trigger] now[b],
        ) by {
            let a0 = if a < i {
                a
            } else {
                a - 1
            };
            let b0 = if b < i {
                b
            } else {
                b - 1
            };
            if a == i {
                if b0 > i {
                    assert(precedes(was[i as int], was[b0]));
                }
            } else if b == i {
                assert(precedes(was[a0], pair(c)));
            } else {
                assert(precedes(was[a0], was[b0]));
            }
        }
        assert forall|a: int| 0 <= a < now.len() implies is_holding(#[trigger] now[a]) by {
            if a < i {
                assert(now[a] == was[a]);
            } else if a > i {
                assert(now[a] == was[a - 1]);
            }
        }
        assert forall|p: (u8, u8)| #[trigger] holds(out@, p) <==> holds(old(out)@, p) || p == pair(
            c,
        ) by {
            if was.contains(p) {
                let k = was.index_of(p);
                if k < i {
                    assert(now[k] == p);
                } else {
                    assert(now[k + 1] == p);
                }
            }
            if p == pair(c) {
                assert(now[i as int] == p);
            }
            if now.contains(p) {
                let k = now.index_of(p);
                if k < i {
                    assert(was[k] == p);
                } else if k > i {
                    assert(was[k - 1] == p);
                }
            }
        }
    }
}

/// Sort holdings and drop those that occur again.
fn sorted(raw: &Vec<[u8; 2]>) -> (out: Vec<[u8; 2]>)
    requires
        are_holdings(raw@),
    ensures
        canonical(pairs(out@)),
        forall|p: (u8, u8)| #[trigger] holds(out@, p) <==> holds(raw@, p),
{
    let mut out: Vec<[u8; 2]> = Vec::new();
    for i in 0..raw.len()
        invariant
            are_holdings(raw@),
            canonical(pairs(out@)),
            forall|p: (u8, u8)| #[trigger] holds(out@, p) <==> holds(raw@.take(i as int), p),
    {
        let c: [u8; 2] = raw[i];
        proof {
            assert(pairs(raw@.take(i + 1)) =~= pairs(raw@.take(i as int)).push(pair(c)));
            assert forall|p: (u8, u8)| #[trigger] holds(raw@.take(i + 1), p) <==> holds(
                raw@.take(i as int),
                p,
            ) || p == pair(c) by {
                lemma_push_contains(pairs(raw@.take(i as int)), pair(c), p);
            }
        }
        put(&mut out, c);
    }
    assert(raw@.take(raw@.len() as int) =~= raw@);
    out
}

/// All entries are holdings.
pub open spec fn are_holdings(s: Seq<[u8; 2]>) -> bool {
    forall|i: int| 0 <= i < s.len() ==> is_holding(pair(#[trigger] s[i]))
}

/// `more` is `s` with the holdings appended.
pub open spec fn extends(s: Seq<[u8; 2]>, more: Seq<[u8; 2]>, holdings: Seq<(u8, u8)>) -> bool {
    &&& s.is_prefix_of(more)
    &&& pairs(more) == pairs(s) + holdings
}

proof fn lemma_extends_push(
    s: Seq<[u8; 2]>,
    more: Seq<[u8; 2]>,
    holdings: Seq<(u8, u8)>,
    k: int,
    c: [u8; 2],
)
    requires
        extends(s, more, holdings.take(k)),
        0 <= k < holdings.len(),
        holdings[k] == pair(c),
    ensures
        extends(s, more.push(c), holdings.take(k + 1)),
{
    assert(pairs(more.push(c)) =~= pairs(more).push(pair(c)));
    assert(holdings.take(k + 1) =~= holdings.take(k).push(pair(c)));
    assert(pairs(more.push(c)) =~= pairs(s) + holdings.take(k + 1));
    assert(s =~= more.push(c).take(s.len() as int)) by {
        assert(more.push(c).take(s.len() as int) =~= more.take(s.len() as int));
    }
}

proof fn lemma_extends_append(
    a: Seq<[u8; 2]>,
    b: Seq<[u8; 2]>,
    c: Seq<[u8; 2]>,
    x: Seq<(u8, u8)>,
    y: Seq<(u8, u8)>,
)
    requires
        extends(a, b, x),
        extends(b, c, y),
    ensures
        extends(a, c, x + y),
{
    assert(a =~= c.take(a.len() as int)) by {
        assert forall|i: int| 0 <= i < a.len() implies a[i] == c[i] by {
            assert(b.take(a.len() as int)[i] == b[i]);
            assert(c.take(b.len() as int)[i] == c[i]);
        }
    }
    assert(pairs(c) =~= pairs(a) + (x + y));
}

/// Where the pairs with higher suit `s` start among those of a rank.
spec fn pair_place(s: int) -> int {
    if s <= 1 {
        0
    } else if s == 2 {
        1
    } else if s == 3 {
        3
    } else {
        6
    }
}

/// Append the holdings of a hand class.
fn emit(hi: u8, lo: u8, suits: Suits, out: &mut Vec<[u8; 2]>)
    requires
        lo <= hi < 13,
    ensures
        extends(old(out)@, final(out)@, class_holdings(hi, lo, suits)),
    decreases
            (if suits == Suits::Both {
                1int
            } else {
                0int
            }),
{
    let ghost was = out@;
    let ghost list = class_holdings(hi, lo, suits);
    proof {
        assert(pairs(was) + list.take(0) =~= pairs(was));
        assert(was.is_prefix_of(was)) by {
            assert(was =~= was.take(was.len() as int));
        }
    }
    if hi == lo {
        for s1 in 0..4u8
            invariant
                hi == lo < 13,
                list == class_holdings(hi, lo, suits),
                extends(was, out@, list.take(pair_place(s1 as int))),
        {
            for s2 in 0..s1
                invariant
                    hi == lo < 13,
                    s1 < 4,
                    list == class_holdings(hi, lo, suits),
                    extends(was, out@, list.take(pair_place(s1 as int) + s2)),
            {
                let c: [u8; 2] = [card::card(hi, s1), card::card(hi, s2)];
                proof {
                    lemma_extends_push(was, out@, list, pair_place(s1 as int) + s2, c);
                }
                out.push(c);
            }
        }
        assert(list.take(6) =~= list);
        return ;
    }
    match suits {
        Suits::Suited => {
            for s in 0..4u8
                invariant
                    lo < hi < 13,
                    list == class_holdings(hi, lo, Suits::Suited),
                    extends(was, out@, list.take(s as int)),
            {
                let c: [u8; 2] = [card::card(hi, s), card::card(lo, s)];
                proof {
                    lemma_extends_push(was, out@, list, s as int, c);
                }
                out.push(c);
            }
            assert(list.take(4) =~= list);
        },
        Suits::Offsuit => {
            for a in 0..4u8
                invariant
                    lo < hi < 13,
                    list == class_holdings(hi, lo, Suits::Offsuit),
                    extends(was, out@, list.take(3 * a)),
            {
                for b in 0..4u8
                    invariant
                        lo < hi < 13,
                        a < 4,
                        list == class_holdings(hi, lo, Suits::Offsuit),
                        extends(
                            was,
                            out@,
                            list.take(
                                3 * a + if b <= a {
                                    b as int
                                } else {
                                    b - 1
                                },
                            ),
                        ),
                {
                    if a != b {
                        let c: [u8; 2] = [card::card(hi, a), card::card(lo, b)];
                        proof {
                            let k = 3 * a + if b <= a {
                                b as int
                            } else {
                                b - 1
                            };
                            lemma_extends_push(was, out@, list, k, c);
                        }
                        out.push(c);
                    }
                }
            }
            assert(list.take(12) =~= list);
        },
        Suits::Both => {
            emit(hi, lo, Suits::Suited, out);
            let ghost half = out@;
            emit(hi, lo, Suits::Offsuit, out);
            proof {
                lemma_extends_append(
                    was,
                    half,
                    out@,
                    class_holdings(hi, lo, Suits::Suited),
                    class_holdings(hi, lo, Suits::Offsuit),
                );
            }
        },
    }
}

/// A message about a text: the text between backquotes, and a tail.
fn message(tok: &str, tail: &str) -> (text: String)
    ensures
        text@ == quoted(tok@) + tail@,
{
    let mut text: String = "`".to_string();
    text.append(tok);
    text.append("`");
    text.append(tail);
    text
}

/// A message about a letter of a text.
fn letter_message(tok: &str, lead: &str, letter: &str, tail: &str) -> (text: String)
    ensures
        text@ == quoted(tok@) + lead@ + letter@ + tail@,
{
    let mut text: String = message(tok, lead);
    text.append(letter);
    text.append(tail);
    text
}

/// The letter in place `i`, in lower case.
fn small_letter_at(tok: &str, i: usize) -> (letter: &str)
    requires
        tok.is_ascii(),
        i < tok@.len(),
        i < usize::MAX,
    ensures
        letter@ == seq![card::small_letter(tok@[i as int])],
{
    let c: char = tok.get_char(i);
    let u: u32 = c as u32;
    if 65 <= u && u <= 90 {
        proof {
            reveal_strlit("abcdefghijklmnopqrstuvwxyz");
        }
        let k: usize = (u - 65) as usize;
        let letter = "abcdefghijklmnopqrstuvwxyz".substring_ascii(k, k + 1);
        assert(letter@ =~= seq![card::small_letter(c)]);
        letter
    } else {
        let letter = tok.substring_ascii(i, i + 1);
        assert(letter@ =~= seq![c]);
        letter
    }
}

/// Parse a hand class such as `AA`, `AKs`, or `T9o` into `(high, low, suits)`.
fn shorthand(tok: &str) -> (class: Result<(u8, u8, Suits), String>)
    requires
        tok.is_ascii(),
    ensures
        class matches Ok(c) ==> class_of(tok@) == Ok::<(u8, u8, Suits), Seq<char>>(c) && c.1 <= c.0
            < 13,
        class matches Err(e) ==> class_of(tok@) == Err::<(u8, u8, Suits), Seq<char>>(e@),
{
    let n: usize = tok.unicode_len();
    if n < 2 || n > 3 {
        return Err(message(tok, " is not a hand class like `AA`, `AKs`, or `T9o`"));
    }
    let r: u8 = match rank_index(tok.get_char(0)) {
        Some(r) => r,
        None => {
            let letter = tok.substring_ascii(0, 1);
            assert(letter@ =~= seq![tok@[0]]);
            return Err(letter_message(tok, ": `", letter, "` is not a rank"));
        },
    };
    let q: u8 = match rank_index(tok.get_char(1)) {
        Some(q) => q,
        None => {
            let letter = tok.substring_ascii(1, 2);
            assert(letter@ =~= seq![tok@[1]]);
            return Err(letter_message(tok, ": `", letter, "` is not a rank"));
        },
    };
    let suits = if n == 3 {
        match tok.get_char(2) {
            's' | 'S' => Suits::Suited,
            'o' | 'O' => Suits::Offsuit,
            _ => {
                return Err(
                    letter_message(
                        tok,
                        " ends in `",
                        small_letter_at(tok, 2),
                        "`, expected `s` or `o`",
                    ),
                );
            },
        }
    } else {
        Suits::Both
    };
    if r == q && suits != Suits::Both {
        return Err(message(tok, ": a pair cannot be suited or offsuit"));
    }
    if r >= q {
        Ok((r, q, suits))
    } else {
        Ok((q, r, suits))
    }
}

/// Append the pairs from one rank up to another.
fn emit_pairs(from: u8, to: u8, out: &mut Vec<[u8; 2]>)
    requires
        from <= to < 13,
    ensures
        extends(old(out)@, final(out)@, Span::Pairs(from, to).holdings()),
{
    let ghost was = out@;
    proof {
        assert(pairs(was) + pairs_between(from as int, from - 1) =~= pairs(was));
        assert(was =~= was.take(was.len() as int));
    }
    for r in from..to + 1
        invariant
            to < 13,
            extends(was, out@, pairs_between(from as int, r - 1)),
    {
        let ghost half = out@;
        emit(r, r, Suits::Both, out);
        proof {
            lemma_extends_append(
                was,
                half,
                out@,
                pairs_between(from as int, r - 1),
                class_holdings(r, r, Suits::Both),
            );
        }
    }
}

/// Append a high card with the kickers from one rank up to another.
fn emit_kickers(hi: u8, from: u8, to: u8, suits: Suits, out: &mut Vec<[u8; 2]>)
    requires
        from <= to < hi < 13,
    ensures
        extends(old(out)@, final(out)@, Span::Kickers(hi, from, to, suits).holdings()),
{
    let ghost was = out@;
    proof {
        assert(pairs(was) + kickers_between(hi, from as int, from - 1, suits) =~= pairs(was));
        assert(was =~= was.take(was.len() as int));
    }
    for l in from..to + 1
        invariant
            to < hi < 13,
            extends(was, out@, kickers_between(hi, from as int, l - 1, suits)),
    {
        let ghost half = out@;
        emit(hi, l, suits, out);
        proof {
            lemma_extends_append(
                was,
                half,
                out@,
                kickers_between(hi, from as int, l - 1, suits),
                class_holdings(hi, l, suits),
            );
        }
    }
}

/// The holdings of a class are those that are of it.
proof fn lemma_class_holdings(hi: u8, lo: u8, suits: Suits)
    requires
        lo <= hi < 13,
    ensures
        forall|p: (u8, u8)| #[trigger]
            class_holdings(hi, lo, suits).contains(p) <==> is_of_class(hi, lo, suits, p),
        class_holdings(hi, lo, suits).len() == class_size(hi, lo, suits),
{
    let c = class_holdings(hi, lo, suits);
    assert forall|p: (u8, u8)| is_of_class(hi, lo, suits, p) implies #[trigger] c.contains(p) by {
        let a = p.0 % 4;
        let b = p.1 % 4;
        let apart = 3 * a + if b < a {
            b as int
        } else {
            b - 1
        };
        let i: int = if hi == lo {
            pair_place(a as int) + b
        } else {
            match suits {
                Suits::Suited => a as int,
                Suits::Offsuit => apart,
                Suits::Both => if a == b {
                    a as int
                } else {
                    4 + apart
                },
            }
        };
        assert(c[i] == p);
    }
    assert forall|p: (u8, u8)| #[trigger] c.contains(p) implies is_of_class(hi, lo, suits, p) by {
        let i = c.index_of(p);
        assert(c[i] == p);
    }
}

proof fn lemma_pairs_between(from: int, to: int)
    requires
        0 <= from,
        to < 13,
    ensures
        forall|p: (u8, u8)| #[trigger]
            pairs_between(from, to).contains(p) <==> is_holding(p) && p.0 / 4 == p.1 / 4 && from
                <= p.0 / 4 <= to,
        from <= to ==> pairs_between(from, to).len() > 0,
    decreases to - from + 1,
{
    if from <= to {
        lemma_pairs_between(from, to - 1);
        lemma_class_holdings(to as u8, to as u8, Suits::Both);
        assert forall|p: (u8, u8)| #[trigger] pairs_between(from, to).contains(p) <==> is_holding(p)
            && p.0 / 4 == p.1 / 4 && from <= p.0 / 4 <= to by {
            lemma_append_contains(
                pairs_between(from, to - 1),
                class_holdings(to as u8, to as u8, Suits::Both),
                p,
            );
        }
    }
}

proof fn lemma_kickers_between(hi: u8, from: int, to: int, suits: Suits)
    requires
        0 <= from,
        to < hi < 13,
    ensures
        forall|p: (u8, u8)| #[trigger]
            kickers_between(hi, from, to, suits).contains(p) <==> is_holding(p) && p.0 / 4 == hi
                && from <= p.1 / 4 <= to && suits_fit(suits, p),
        from <= to ==> kickers_between(hi, from, to, suits).len() > 0,
    decreases to - from + 1,
{
    if from <= to {
        lemma_kickers_between(hi, from, to - 1, suits);
        lemma_class_holdings(hi, to as u8, suits);
        assert forall|p: (u8, u8)| #[trigger]
            kickers_between(hi, from, to, suits).contains(p) <==> is_holding(p) && p.0 / 4 == hi
                && from <= p.1 / 4 <= to && suits_fit(suits, p) by {
            lemma_append_contains(
                kickers_between(hi, from, to - 1, suits),
                class_holdings(hi, to as u8, suits),
                p,
            );
        }
    }
}

/// The holdings written out for a span are those that it stands for, and there is
/// at least one.
pub proof fn lemma_span_holdings(span: Span)
    requires
        span.is_proper(),
    ensures
        span.holdings().len() > 0,
        forall|p: (u8, u8)| #[trigger] span.holdings().contains(p) <==> span.has(p),
        forall|p: (u8, u8)| span.has(p) ==> #[trigger] is_holding(p),
{
    match span {
        Span::One(a, b) => {
            assert(span.holdings()[0] == (a, b));
        },
        Span::Pairs(from, to) => {
            lemma_pairs_between(from as int, to as int);
        },
        Span::Kickers(hi, from, to, suits) => {
            lemma_kickers_between(hi, from as int, to as int, suits);
        },
    }
}

pub proof fn lemma_append_contains<A>(a: Seq<A>, b: Seq<A>, c: A)
    ensures
        (a + b).contains(c) <==> a.contains(c) || b.contains(c),
{
    if a.contains(c) {
        let i = a.index_of(c);
        assert((a + b)[i] == c);
    }
    if b.contains(c) {
        let i = b.index_of(c);
        assert((a + b)[a.len() + i] == c);
    }
    if (a + b).contains(c) {
        let i = (a + b).index_of(c);
        if i < a.len() {
            assert(a[i] == c);
        } else {
            assert(b[i - a.len()] == c);
        }
    }
}

/// Appending holdings to holdings leaves holdings.
proof fn lemma_still_holdings(s: Seq<[u8; 2]>, more: Seq<[u8; 2]>)
    requires
        are_holdings(s),
        s.is_prefix_of(more) || s == more,
        forall|k: int| s.len() <= k < more.len() ==> is_holding(pair(#[trigger] more[k])),
    ensures
        are_holdings(more),
{
    assert forall|k: int| 0 <= k < more.len() implies is_holding(pair(#[trigger] more[k])) by {
        if k < s.len() && s.is_prefix_of(more) {
            assert(more.take(s.len() as int)[k] == more[k]);
        }
        if k < s.len() {
            assert(is_holding(pair(s[k])));
        }
    }
}

/// Appending what a span stands for keeps a list of holdings one, and puts in just
/// those.
proof fn lemma_extended(s: Seq<[u8; 2]>, more: Seq<[u8; 2]>, span: Span)
    requires
        span.is_proper(),
        extends(s, more, span.holdings()),
    ensures
        more.len() > s.len(),
        forall|k: int| s.len() <= k < more.len() ==> is_holding(pair(#[trigger] more[k])),
        forall|p: (u8, u8)| #[trigger] holds(more, p) <==> holds(s, p) || span.has(p),
{
    lemma_span_holdings(span);
    assert(pairs(more).len() == more.len());
    assert forall|k: int| s.len() <= k < more.len() implies is_holding(pair(#[trigger] more[k])) by {
        assert(pairs(more)[k] == pair(more[k]));
        assert(span.holdings().contains(span.holdings()[k - s.len()]));
    }
    assert forall|p: (u8, u8)| #[trigger] holds(more, p) <==> holds(s, p) || span.has(p) by {
        lemma_append_contains(pairs(s), span.holdings(), p);
    }
}

/// Where the first dash is.
fn find_dash(tok: &str) -> (at: Option<usize>)
    ensures
        at matches Some(i) ==> i < tok@.len() && first_dash(tok@) == i && tok@.contains('-'),
        at is None ==> !tok@.contains('-'),
{
    let n: usize = tok.unicode_len();
    let mut i: usize = 0;
    for c in it: tok.chars()
        invariant
            it.seq() == tok@,
            i == it.index(),
            n == tok@.len(),
            forall|j: int| 0 <= j < i ==> #[trigger] tok@[j] != '-',
    {
        if c == '-' {
            proof {
                assert(tok@[i as int] == '-');
                assert(is_first_dash(tok@, i as int));
                lemma_first_dash(tok@, i as int);
            }
            return Some(i);
        }
        i += 1;
    }
    None
}

proof fn lemma_first_dash(t: Seq<char>, i: int)
    requires
        is_first_dash(t, i),
    ensures
        first_dash(t) == i,
{
    let j = first_dash(t);
    assert(is_first_dash(t, j));
    if i < j {
        assert(t[i] != '-');
    } else if j < i {
        assert(t[j] != '-');
    }
}

/// Append what a token stands for; a token that means nothing leaves the list as
/// it is.
fn parse_token(tok: &str, out: &mut Vec<[u8; 2]>) -> (done: Result<(), String>)
    ensures
        done is Ok ==> meaning(tok@) is Ok && extends(
            old(out)@,
            final(out)@,
            meaning(tok@)->Ok_0.holdings(),
        ),
        done is Ok ==> final(out).len() > old(out).len() && forall|k: int|
            old(out).len() <= k < final(out).len() ==> is_holding(pair(#[trigger] final(out)[k])),
        done is Ok ==> forall|p: (u8, u8)| #[trigger]
            holds(final(out)@, p) <==> holds(old(out)@, p) || meaning(tok@)->Ok_0.has(p),
        done matches Err(e) ==> meaning(tok@) == Err::<Span, Seq<char>>(e@) && final(out)@ == old(out)@,
{
    let ghost was = out@;
    if !tok.is_ascii() {
        return Err(message(tok, " is not ASCII"));
    }
    let n: usize = tok.unicode_len();

    // An explicit combo like `AsKh`. Tried first, but note `AJs+` is also four
    // characters: there `J` is not a suit, the card parse fails, and we fall
    // through to the shorthand forms below.
    if n == 4 {
        if let (Some(a), Some(b)) = (
            card_index(tok.get_char(0), tok.get_char(1)),
            card_index(tok.get_char(2), tok.get_char(3)),
        ) {
            if a == b {
                return Err(message(tok, " uses the same card twice"));
            }
            let c: [u8; 2] = if a > b {
                [a, b]
            } else {
                [b, a]
            };
            out.push(c);
            proof {
                let span = Span::One(c[0], c[1]);
                assert(was =~= out@.take(was.len() as int));
                assert(pairs(out@) =~= pairs(was) + span.holdings());
                lemma_extended(was, out@, span);
            }
            return Ok(());
        }
    }
    if n > 0 && tok.get_char(n - 1) == '+' {
        let base = tok.substring_ascii(0, n - 1);
        assert(base@ =~= tok@.drop_last());
        let (hi, lo, suits) = match shorthand(base) {
            Ok(c) => c,
            Err(e) => return Err(e),
        };
        if hi == lo {
            emit_pairs(hi, 12, out);
        } else {
            // The high card is pinned and the kicker climbs to just under it.
            emit_kickers(hi, lo, hi - 1, suits, out);
        }
        proof {
            lemma_extended(was, out@, meaning(tok@)->Ok_0);
        }
        return Ok(());
    }
    if let Some(at) = find_dash(tok) {
        let head = tok.substring_ascii(0, at);
        let tail = tok.substring_ascii(at + 1, n);
        proof {
            assert(head@ =~= tok@.take(at as int));
            assert(tail@ =~= tok@.skip(at + 1));
        }
        let (hi1, lo1, s1) = match shorthand(head) {
            Ok(c) => c,
            Err(e) => return Err(e),
        };
        let (hi2, lo2, s2) = match shorthand(tail) {
            Ok(c) => c,
            Err(e) => return Err(e),
        };
        if s1 != s2 {
            return Err(message(tok, " mixes suited and offsuit ends"));
        }
        if (hi1 == lo1) != (hi2 == lo2) {
            return Err(message(tok, " mixes pairs and non-pairs"));
        }
        let (from, to): (u8, u8) = if lo1 <= lo2 {
            (lo1, lo2)
        } else {
            (lo2, lo1)
        };
        if hi1 == lo1 {
            emit_pairs(from, to, out);
        } else {
            if hi1 != hi2 {
                return Err(message(tok, ": both ends must share a high card, like `AJs-A9s`"));
            }
            emit_kickers(hi1, from, to, s1, out);
        }
        proof {
            lemma_extended(was, out@, meaning(tok@)->Ok_0);
        }
        return Ok(());
    }
    let (hi, lo, suits) = match shorthand(tok) {
        Ok(c) => c,
        Err(e) => return Err(e),
    };
    if hi == lo {
        emit_pairs(hi, hi, out);
    } else {
        emit_kickers(hi, lo, lo, suits, out);
    }
    proof {
        lemma_extended(was, out@, meaning(tok@)->Ok_0);
    }
    Ok(())
}

/// Two ranges with the same holdings are the same list, however they were
/// written.
pub proof fn law_same_holdings_make_the_same_range(a: Seq<(u8, u8)>, b: Seq<(u8, u8)>)
    requires
        canonical(a),
        canonical(b),
        forall|p: (u8, u8)| #[trigger] a.contains(p) <==> b.contains(p),
    ensures
        a == b,
    decreases a.len() + b.len(),
{
    if a.len() == 0 {
        if b.len() > 0 {
            assert(b.contains(b[0]));
            assert(a.contains(b[0]));
        }
        assert(a =~= b);
    } else {
        assert(a.contains(a[0]));
        assert(b.len() > 0);
        let x = a.last();
        let y = b.last();
        assert(a.contains(a[a.len() - 1]));
        assert(b.contains(b[b.len() - 1]));
        assert(a.contains(y));
        let i = a.index_of(y);
        let j = b.index_of(x);
        assert(x == y) by {
            if i < a.len() - 1 {
                assert(precedes(a[i], a[a.len() - 1]));
            }
            if j < b.len() - 1 {
                assert(precedes(b[j], b[b.len() - 1]));
            }
        }
        let c = a.drop_last();
        let d = b.drop_last();
        assert forall|k: int| 0 <= k < c.len() implies precedes(#[trigger] c[k], x) && is_holding(
            c[k],
        ) by {
            assert(precedes(a[k], a[a.len() - 1]));
            assert(is_holding(a[k]));
        }
        assert forall|k: int| 0 <= k < d.len() implies precedes(#[trigger] d[k], x) && is_holding(
            d[k],
        ) by {
            assert(precedes(b[k], b[b.len() - 1]));
            assert(is_holding(b[k]));
        }
        assert forall|k: int, m: int| 0 <= k < m < c.len() implies precedes(
            #[trigger] c[k],
            #[trigger] c[m],
        ) by {
            assert(precedes(a[k], a[m]));
        }
        assert forall|k: int, m: int| 0 <= k < m < d.len() implies precedes(
            #[trigger] d[k],
            #[trigger] d[m],
        ) by {
            assert(precedes(b[k], b[m]));
        }
        assert forall|p: (u8, u8)| #[trigger] c.contains(p) <==> d.contains(p) by {
            assert(a =~= c.push(x));
            assert(b =~= d.push(x));
            lemma_push_contains(c, x, p);
            lemma_push_contains(d, x, p);
            if c.contains(p) {
                let k = c.index_of(p);
                assert(precedes(c[k], x));
            }
            if d.contains(p) {
                let k = d.index_of(p);
                assert(precedes(d[k], x));
            }
            assert(a.contains(p) <==> b.contains(p));
        }
        law_same_holdings_make_the_same_range(c, d);
        assert(a =~= c.push(x));
        assert(b =~= d.push(x));
    }
}

/// Every token of one text is one of the other.
pub open spec fn tokens_occur(s: Seq<char>, t: Seq<char>) -> bool {
    forall|i: int, j: int| #[trigger]
        is_token(s, i, j) ==> exists|a: int, b: int| #[trigger]
            is_token(t, a, b) && t.subrange(a, b) == s.subrange(i, j)
}

/// Neither the order of tokens nor how often each occurs makes a difference: texts
/// with the same tokens mean the same.
pub proof fn law_token_order_does_not_matter(s: Seq<char>, t: Seq<char>)
    requires
        tokens_occur(s, t),
        tokens_occur(t, s),
    ensures
        is_range(s) <==> is_range(t),
        forall|p: (u8, u8)| #[trigger] range_has(s, p) <==> range_has(t, p),
{
    lemma_tokens_occur(s, t);
    lemma_tokens_occur(t, s);
}

proof fn lemma_tokens_occur(s: Seq<char>, t: Seq<char>)
    requires
        tokens_occur(s, t),
    ensures
        is_range(t) ==> is_range(s),
        forall|p: (u8, u8)| #[trigger] range_has(s, p) ==> range_has(t, p),
{
    if is_range(t) {
        assert forall|i: int, j: int| #[trigger] is_token(s, i, j) implies meaning(s.subrange(i, j)) is Ok by {
            let (a, b) = choose|a: int, b: int| #[trigger]
                is_token(t, a, b) && t.subrange(a, b) == s.subrange(i, j);
            assert(is_token(t, a, b));
        }
    }
    assert forall|p: (u8, u8)| #[trigger] range_has(s, p) implies range_has(t, p) by {
        let (i, j) = choose|i: int, j: int| #[trigger]
            is_token(s, i, j) && meaning(s.subrange(i, j)) is Ok && meaning(
                s.subrange(i, j),
            )->Ok_0.has(p);
        let (a, b) = choose|a: int, b: int| #[trigger]
            is_token(t, a, b) && t.subrange(a, b) == s.subrange(i, j);
        assert(is_token(t, a, b));
    }
}

/// A class may be written with either rank first.
pub proof fn law_rank_order_does_not_matter(t: Seq<char>)
    requires
        class_of(t) is Ok,
    ensures
        class_of(t.update(0, t[1]).update(1, t[0])) == class_of(t),
{
}

/// A span may be written with either end first.
pub proof fn law_span_order_does_not_matter(
    t: Seq<char>,
    u: Seq<char>,
    a: (u8, u8, Suits),
    b: (u8, u8, Suits),
)
    requires
        span_of(t, a, b) is Ok,
    ensures
        span_of(u, b, a) is Ok,
        forall|p: (u8, u8)|
            (#[trigger] span_of(t, a, b)->Ok_0.has(p)) <==> span_of(u, b, a)->Ok_0.has(p),
{
}

/// The number of holdings of a class: six of a pair, four suited, twelve offsuit,
/// sixteen in all.
pub open spec fn class_size(hi: u8, lo: u8, suits: Suits) -> int {
    if hi == lo {
        6
    } else {
        match suits {
            Suits::Suited => 4,
            Suits::Offsuit => 12,
            Suits::Both => 16,
        }
    }
}

/// A range of one class has as many holdings as the class is said to have.
pub proof fn law_class_sizes(hi: u8, lo: u8, suits: Suits, s: Seq<(u8, u8)>)
    requires
        lo <= hi < 13,
        canonical(s),
        forall|p: (u8, u8)| #[trigger] s.contains(p) <==> is_of_class(hi, lo, suits, p),
    ensures
        s.len() == class_size(hi, lo, suits),
{
    let c = class_holdings(hi, lo, suits);
    lemma_class_holdings(hi, lo, suits);
    assert forall|i: int, j: int| 0 <= i < s.len() && 0 <= j < s.len() && i != j implies s[i]
        != s[j] by {
        if i < j {
            assert(precedes(s[i], s[j]));
        } else {
            assert(precedes(s[j], s[i]));
        }
    }
    assert(c.no_duplicates());
    s.unique_seq_to_set();
    c.unique_seq_to_set();
    assert forall|p: (u8, u8)| s.to_set().contains(p) <==> c.to_set().contains(p) by {
        assert(s.contains(p) <==> is_of_class(hi, lo, suits, p));
        assert(c.contains(p) <==> is_of_class(hi, lo, suits, p));
    }
    assert(s.to_set() =~= c.to_set());
}

} // verus!
