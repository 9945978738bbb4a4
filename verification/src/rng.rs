//! A seeded generator: xoshiro256++, with its state spread from one seed word.
//!
//! The generator is written out here rather than pulled from elsewhere, so the
//! sequence is reproducible across machines and toolchain versions. The seed is
//! always explicit.

use vstd::prelude::*;

verus! {

/// The four words of the generator's state.
pub type State = (u64, u64, u64, u64);

pub struct Rng {
    s: [u64; 4],
}

impl View for Rng {
    type V = State;

    closed spec fn view(&self) -> State {
        (self.s[0], self.s[1], self.s[2], self.s[3])
    }
}

/// The step between the words that a seed is spread over.
pub const GOLDEN: u64 = 0x9E37_79B9_7F4A_7C15;

/// SplitMix64's output for the counter `z`.
pub open spec fn mixed(z: u64) -> u64 {
    let x = (z ^ (z >> 30)).wrapping_mul(0xBF58_476D_1CE4_E5B9);
    let y = (x ^ (x >> 27)).wrapping_mul(0x94D0_49BB_1331_11EB);
    y ^ (y >> 31)
}

/// The state that a seed stands for: four successive SplitMix64 outputs.
pub open spec fn seeded(seed: u64) -> State {
    let a = seed.wrapping_add(GOLDEN);
    let b = a.wrapping_add(GOLDEN);
    let c = b.wrapping_add(GOLDEN);
    let d = c.wrapping_add(GOLDEN);
    (mixed(a), mixed(b), mixed(c), mixed(d))
}

/// `x` with its bits rotated left by `k` places.
pub open spec fn rotated(x: u64, k: u64) -> u64 {
    (x << k) | (x >> ((64 - k) as u64))
}

/// The word that a state puts out.
pub open spec fn output(s: State) -> u64 {
    rotated(s.0.wrapping_add(s.3), 23).wrapping_add(s.0)
}

/// The state that follows.
pub open spec fn next(s: State) -> State {
    let c = s.2 ^ s.0;
    let d = s.3 ^ s.1;
    (s.0 ^ d, s.1 ^ c, c ^ (s.1 << 17), rotated(d, 45))
}

/// The state after `n` words.
pub open spec fn after(s: State, n: nat) -> State
    decreases n,
{
    if n == 0 {
        s
    } else {
        next(after(s, (n - 1) as nat))
    }
}

/// The largest word kept when drawing below `n`: the words up to it fall into
/// whole blocks of `n`.
pub open spec fn zone(n: u64) -> int {
    u64::MAX - u64::MAX % n - 1
}

/// The `k`-th word from `s` is the first one kept when drawing below `n`.
pub open spec fn first_kept(s: State, n: u64, k: nat) -> bool {
    &&& output(after(s, k)) <= zone(n)
    &&& forall|j: nat| j < k ==> #[trigger] output(after(s, j)) > zone(n)
}

/// A draw below `n` and the state after it: words that are not kept are passed
/// over. If the generator never put out a word to keep, there is no draw; the
/// state stays and the number is zero.
pub open spec fn draw(s: State, n: u64) -> (u64, State) {
    if exists|k: nat| first_kept(s, n, k) {
        let k = choose|k: nat| first_kept(s, n, k);
        (output(after(s, k)) % n, after(s, k + 1))
    } else {
        (0, s)
    }
}

fn rotate(x: u64, k: u64) -> (r: u64)
    requires
        0 < k < 64,
    ensures
        r == rotated(x, k),
{
    (x << k) | (x >> (64 - k))
}

fn mix(z: u64) -> (r: u64)
    ensures
        r == mixed(z),
{
    let x: u64 = (z ^ (z >> 30)).wrapping_mul(0xBF58_476D_1CE4_E5B9);
    let y: u64 = (x ^ (x >> 27)).wrapping_mul(0x94D0_49BB_1331_11EB);
    y ^ (y >> 31)
}

impl Rng {
    pub fn new(seed: u64) -> (rng: Rng)
        ensures
            rng@ == seeded(seed),
    {
        // SplitMix64 to spread a single seed word across the full state.
        let a: u64 = seed.wrapping_add(GOLDEN);
        let b: u64 = a.wrapping_add(GOLDEN);
        let c: u64 = b.wrapping_add(GOLDEN);
        let d: u64 = c.wrapping_add(GOLDEN);
        Rng { s: [mix(a), mix(b), mix(c), mix(d)] }
    }

    pub fn next_u64(&mut self) -> (word: u64)
        ensures
            word == output(old(self)@),
            final(self)@ == next(old(self)@),
    {
        let result: u64 = rotate(self.s[0].wrapping_add(self.s[3]), 23).wrapping_add(self.s[0]);
        let t: u64 = self.s[1] << 17;
        self.s[2] = self.s[2] ^ self.s[0];
        self.s[3] = self.s[3] ^ self.s[1];
        self.s[1] = self.s[1] ^ self.s[2];
        self.s[0] = self.s[0] ^ self.s[3];
        self.s[2] = self.s[2] ^ t;
        self.s[3] = rotate(self.s[3], 45);
        result
    }

    /// Uniform in `0..n`, rejection-sampled so there is no modulo bias.
    /// Bias matters here: a skewed shuffle quietly corrupts every equity
    /// number downstream, and it is invisible without looking for it.
    ///
    /// Should the generator come back to the state it started from without a
    /// word to keep, no later word would be kept either, and the search ends.
    pub fn below(&mut self, n: u64) -> (x: u64)
        requires
            n > 0,
        ensures
            x < n,
            (x, final(self)@) == draw(old(self)@, n),
    {
        let limit: u64 = u64::MAX - (u64::MAX % n) - 1;
        let start: [u64; 4] = self.s;
        let ghost from = self@;
        let ghost mut k: nat = 0;
        loop
            invariant
                n > 0,
                limit == zone(n),
                from == (start[0], start[1], start[2], start[3]),
                from == old(self)@,
                self@ == after(from, k),
                forall|j: nat| j < k ==> #[trigger] output(after(from, j)) > zone(n),
                forall|j: nat| 0 < j <= k ==> #[trigger] after(from, j) != from,
            decreases state_count() - k,
        {
            proof {
                lemma_few_states(from, k);
            }
            let x: u64 = self.next_u64();
            if x <= limit {
                proof {
                    assert(first_kept(from, n, k));
                    lemma_first_kept_unique(from, n, k);
                }
                return x % n;
            }
            if self.s[0] == start[0] && self.s[1] == start[1] && self.s[2] == start[2] && self.s[3]
                == start[3] {
                proof {
                    lemma_nothing_kept(from, n, k + 1);
                }
                return 0;
            }
            proof {
                k = k + 1;
            }
        }
    }
}

/// How many states there are.
pub open spec fn state_count() -> int {
    0x1_0000_0000_0000_0000_0000_0000_0000_0000_0000_0000_0000_0000_0000_0000_0000_0000int
}

/// The state before.
pub open spec fn previous(s: State) -> State {
    let d = rotated(s.3, 19);
    let m = s.1 ^ s.2;
    let b = ((m ^ (m << 17)) ^ (m << 34)) ^ (m << 51);
    let a = s.0 ^ d;
    (a, b, (s.1 ^ b) ^ a, d ^ b)
}

/// Stepping loses nothing: every state can be traced back.
pub proof fn law_stepping_can_be_undone(s: State)
    ensures
        previous(next(s)) == s,
{
    let (a, b, c, d) = s;
    let e = d ^ b;
    let t = rotated(e, 45);
    assert(((e << 45) | (e >> 19)) << 19 | ((e << 45) | (e >> 19)) >> 45 == e) by (bit_vector);
    assert((64 - 45) as u64 == 19);
    assert((64 - 19) as u64 == 45);
    let f = c ^ a;
    let m = (b ^ f) ^ (f ^ (b << 17));
    assert(((m ^ (m << 17)) ^ (m << 34)) ^ (m << 51) == b) by (bit_vector)
        requires
            m == (b ^ f) ^ (f ^ (b << 17)),
    ;
    assert((a ^ e) ^ e == a) by (bit_vector);
    assert(((b ^ f) ^ b) ^ a == c) by (bit_vector)
        requires
            f == c ^ a,
    ;
    assert(e ^ b == d) by (bit_vector)
        requires
            e == d ^ b,
    ;
}

/// Multiplying by `c` loses nothing where `c` has an inverse.
proof fn lemma_product_undone(x: u64, c: u64, inverse: u64)
    requires
        (c * inverse) % 0x1_0000_0000_0000_0000 == 1,
    ensures
        x.wrapping_mul(c).wrapping_mul(inverse) == x,
{
    let m = 0x1_0000_0000_0000_0000int;
    vstd::arithmetic::div_mod::lemma_mul_mod_noop_left(x * c, inverse as int, m);
    vstd::arithmetic::mul::lemma_mul_is_associative(x as int, c as int, inverse as int);
    vstd::arithmetic::div_mod::lemma_mul_mod_noop_right(x as int, c * inverse, m);
}

/// Mixing tells every two counters apart.
proof fn lemma_mixed_apart(a: u64, b: u64)
    requires
        mixed(a) == mixed(b),
    ensures
        a == b,
{
    let u = (a ^ (a >> 30)).wrapping_mul(0xBF58_476D_1CE4_E5B9);
    let v = (b ^ (b >> 30)).wrapping_mul(0xBF58_476D_1CE4_E5B9);
    let x = (u ^ (u >> 27)).wrapping_mul(0x94D0_49BB_1331_11EB);
    let y = (v ^ (v >> 27)).wrapping_mul(0x94D0_49BB_1331_11EB);
    assert(x == y) by (bit_vector)
        requires
            x ^ (x >> 31) == y ^ (y >> 31),
    ;
    lemma_product_undone(u ^ (u >> 27), 0x94D0_49BB_1331_11EB, 0x3196_42B2_D24D_8EC3);
    lemma_product_undone(v ^ (v >> 27), 0x94D0_49BB_1331_11EB, 0x3196_42B2_D24D_8EC3);
    assert(u == v) by (bit_vector)
        requires
            u ^ (u >> 27) == v ^ (v >> 27),
    ;
    lemma_product_undone(a ^ (a >> 30), 0xBF58_476D_1CE4_E5B9, 0x96DE_1B17_3F11_9089);
    lemma_product_undone(b ^ (b >> 30), 0xBF58_476D_1CE4_E5B9, 0x96DE_1B17_3F11_9089);
    assert(a == b) by (bit_vector)
        requires
            a ^ (a >> 30) == b ^ (b >> 30),
    ;
}

/// Different seeds stay apart: generators seeded with them are in different states
/// after as many words, however many.
pub proof fn law_seeds_stay_apart(a: u64, b: u64, n: nat)
    requires
        a != b,
    ensures
        after(seeded(a), n) != after(seeded(b), n),
{
    if after(seeded(a), n) == after(seeded(b), n) {
        lemma_meet(seeded(a), seeded(b), n);
        lemma_mixed_apart(a.wrapping_add(GOLDEN), b.wrapping_add(GOLDEN));
    }
}

/// A state as a number.
spec fn number(s: State) -> int {
    s.0 + s.1 * 0x1_0000_0000_0000_0000int + s.2
        * 0x1_0000_0000_0000_0000_0000_0000_0000_0000int + s.3
        * 0x1_0000_0000_0000_0000_0000_0000_0000_0000_0000_0000_0000_0000int
}

/// Words further on are words from a later state.
proof fn lemma_after_add(s: State, m: nat, n: nat)
    ensures
        after(s, m + n) == after(after(s, m), n),
    decreases n,
{
    if n > 0 {
        lemma_after_add(s, m, (n - 1) as nat);
    }
}

/// States that meet have met as many steps before.
proof fn lemma_meet(s: State, t: State, n: nat)
    requires
        after(s, n) == after(t, n),
    ensures
        s == t,
    decreases n,
{
    if n > 0 {
        law_stepping_can_be_undone(after(s, (n - 1) as nat));
        law_stepping_can_be_undone(after(t, (n - 1) as nat));
        lemma_meet(s, t, (n - 1) as nat);
    }
}

/// Until the generator comes back to where it started, all its states differ;
/// so it cannot take more steps than there are states.
proof fn lemma_few_states(from: State, k: nat)
    requires
        forall|j: nat| 0 < j <= k ==> #[trigger] after(from, j) != from,
    ensures
        k < state_count(),
{
    let seen = Seq::new(k + 1, |j: int| number(after(from, j as nat)));
    assert forall|i: int, j: int| 0 <= i < j < seen.len() implies seen[i] != seen[j] by {
        if seen[i] == seen[j] {
            let (a, b) = (after(from, i as nat), after(from, j as nat));
            assert(number(a) == number(b));
            assert(a == b);
            lemma_after_add(from, (j - i) as nat, i as nat);
            lemma_meet(from, after(from, (j - i) as nat), i as nat);
            assert(after(from, (j - i) as nat) != from);
        }
    }
    seen.unique_seq_to_set();
    let numbers = vstd::set_lib::set_int_range(0, state_count());
    vstd::set_lib::lemma_int_range(0, state_count());
    assert(seen.to_set().subset_of(numbers)) by {
        assert forall|x: int| seen.to_set().contains(x) implies numbers.contains(x) by {
            let i = seen.index_of(x);
            assert(seen[i] == x);
        }
    }
    vstd::set_lib::lemma_len_subset(seen.to_set(), numbers);
}

/// There is only one first word to keep.
pub proof fn lemma_first_kept_unique(s: State, n: u64, k: nat)
    requires
        first_kept(s, n, k),
    ensures
        draw(s, n) == (output(after(s, k)) % n, after(s, k + 1)),
{
    let m = choose|m: nat| first_kept(s, n, m);
    if m < k {
        assert(output(after(s, m)) > zone(n));
    } else if k < m {
        assert(output(after(s, k)) > zone(n));
    }
}

/// A draw below `n` is below `n`.
pub proof fn lemma_draw_in_range(s: State, n: u64)
    requires
        n > 0,
    ensures
        draw(s, n).0 < n,
{
}

/// After a full turn the generator repeats itself.
proof fn lemma_turns(s: State, period: nat, k: nat)
    requires
        period > 0,
        after(s, period) == s,
    ensures
        after(s, k) == after(s, k % period),
    decreases k,
{
    if k >= period {
        lemma_after_add(s, period, (k - period) as nat);
        lemma_turns(s, period, (k - period) as nat);
        assert(k % period == (k - period) as nat % period) by {
            vstd::arithmetic::div_mod::lemma_mod_add_multiples_vanish((k - period) as int, period as int);
        }
    } else {
        vstd::arithmetic::div_mod::lemma_small_mod(k, period);
    }
}

/// A full turn without a word to keep means that there is none.
proof fn lemma_nothing_kept(s: State, n: u64, period: nat)
    requires
        period > 0,
        after(s, period) == s,
        forall|j: nat| j < period ==> #[trigger] output(after(s, j)) > zone(n),
    ensures
        draw(s, n) == (0u64, s),
{
    assert forall|k: nat| !first_kept(s, n, k) by {
        lemma_turns(s, period, k);
        assert(k % period < period) by {
            vstd::arithmetic::div_mod::lemma_mod_bound(k as int, period as int);
        }
        assert(output(after(s, k % period)) > zone(n));
    }
}

/// No modulo bias: every number below `n` stands for equally many of the words
/// that are kept, namely `u64::MAX / n` of them.
pub proof fn law_kept_words_are_spread_evenly(n: u64, x: u64, r: u64)
    requires
        0 < n,
        r < n,
    ensures
        (x <= zone(n) && x % n == r) <==> (exists|q: int|
            0 <= q < u64::MAX as int / n as int && x == #[trigger] (q * n) + r),
{
    let blocks = u64::MAX as int / n as int;
    vstd::arithmetic::div_mod::lemma_fundamental_div_mod(u64::MAX as int, n as int);
    vstd::arithmetic::div_mod::lemma_fundamental_div_mod(x as int, n as int);
    assert(zone(n) == blocks * n - 1) by (nonlinear_arith)
        requires
            zone(n) == u64::MAX - u64::MAX as int % n as int - 1,
            u64::MAX as int == n * blocks + u64::MAX as int % n as int,
    ;
    if x <= zone(n) && x % n == r {
        let q = x as int / n as int;
        assert(q * n + r == x && 0 <= q < blocks) by (nonlinear_arith)
            requires
                x as int == n * q + r,
                x as int <= blocks * n - 1,
                0 <= r < n,
                0 <= x,
        ;
    }
    if exists|q: int| 0 <= q < blocks && x == #[trigger] (q * n) + r {
        let q = choose|q: int| 0 <= q < blocks && x == #[trigger] (q * n) + r;
        assert(x <= blocks * n - 1) by (nonlinear_arith)
            requires
                x as int == q * n + r,
                0 <= q < blocks,
                0 <= r < n,
        ;
        vstd::arithmetic::div_mod::lemma_fundamental_div_mod_converse(x as int, n as int, q, r as int);
    }
}

/// A block of words is kept whole or not at all.
pub proof fn lemma_kept_block(n: u64, word: int, r: int)
    requires
        0 < n,
        0 <= word <= zone(n),
        0 <= r < n,
    ensures
        0 <= word - word % (n as int) + r <= zone(n),
        (word - word % (n as int) + r) % (n as int) == r,
{
    let blocks = u64::MAX as int / n as int;
    let q = word / n as int;
    vstd::arithmetic::div_mod::lemma_fundamental_div_mod(u64::MAX as int, n as int);
    vstd::arithmetic::div_mod::lemma_fundamental_div_mod(word, n as int);
    vstd::arithmetic::div_mod::lemma_mod_bound(word, n as int);
    assert(zone(n) == u64::MAX - u64::MAX as int % n as int - 1);
    assert(0 <= q < blocks) by (nonlinear_arith)
        requires
            word == n * q + word % (n as int),
            0 <= word % (n as int) < n,
            0 <= word <= n * blocks - 1,
    ;
    assert(0 <= n * q <= n * blocks - n) by (nonlinear_arith)
        requires
            0 <= q < blocks,
            0 < n,
    ;
    vstd::arithmetic::div_mod::lemma_fundamental_div_mod_converse(n * q + r, n as int, q, r);
}

/// A draw below `n` passes over the words beyond the last whole block of `n` and
/// takes the first other word, modulo `n`; the generator goes on behind it.
pub proof fn law_draws_use_the_first_word_of_a_whole_block(s: State, n: u64, k: nat)
    requires
        n > 0,
        forall|j: nat| j < k ==> #[trigger] output(after(s, j)) >= n * (u64::MAX as int / n as int),
        output(after(s, k)) < n * (u64::MAX as int / n as int),
    ensures
        draw(s, n).0 == output(after(s, k)) as int % n as int,
        draw(s, n).1 == after(s, k + 1),
{
    vstd::arithmetic::div_mod::lemma_fundamental_div_mod(u64::MAX as int, n as int);
    assert(zone(n) == n * (u64::MAX as int / n as int) - 1);
    assert(first_kept(s, n, k));
    lemma_first_kept_unique(s, n, k);
}

/// Words follow each other: the `k`-th from a state is the first from the state
/// `k` words on.
pub proof fn law_words_follow_each_other(s: State, k: nat)
    ensures
        after(s, 0) == s,
        after(s, k + 1) == after(next(s), k),
    decreases k,
{
    reveal_with_fuel(after, 2);
    if k > 0 {
        law_words_follow_each_other(s, (k - 1) as nat);
    }
}

} // verus!
