//! PCG32 (`setseq_xsh_rr_64_32`): a 64-bit linear congruential state with
//! the XSH-RR output permutation, plus unbiased bounded draws and the
//! "five distinct indices" sampler of the robust fits.

use vstd::prelude::*;
use vstd::arithmetic::div_mod::{lemma_add_mod_noop, lemma_mod_twice, lemma_small_mod};
use vstd::set_lib::{lemma_int_range, lemma_len_subset, set_int_range};
use vstd::seq_lib::seq_to_set_is_finite;

verus! {

pub const PCG_MULT: u64 = 6364136223846793005;
pub const PCG_DEFAULT_INC: u64 = 1442695040888963407;
pub const DETECTOR_SEED: u64 = 271828;

/// The largest number of consecutive rejected draws before a draw is taken
/// as it is. The state has full period `2^64`, so within that many draws the
/// walk passes every state; the limit only makes the loops' bound explicit.
pub const MAX_RETRIES: u64 = 0xffff_ffff_ffff_ffff;

/// `(a + b) mod 2^64`.
pub open spec fn add64(a: int, b: int) -> u64 {
    ((a + b) % 0x1_0000_0000_0000_0000) as u64
}

/// One LCG step: `state * PCG_MULT + inc (mod 2^64)`.
pub open spec fn pcg_step(s: u64, inc: u64) -> u64 {
    ((s as int * PCG_MULT as int + inc as int) % 0x1_0000_0000_0000_0000) as u64
}

/// Rotate a 32-bit value right by `r` (0..=31) bits.
pub open spec fn rotr32(x: u32, r: u32) -> u32 {
    if r == 0 {
        x
    } else {
        (x >> r) | (x << ((32 - r) as u32))
    }
}

/// XSH-RR output of a state.
pub open spec fn pcg_output(s: u64) -> u32 {
    rotr32((((s >> 18u64) ^ s) >> 27u64) as u32, (s >> 59u64) as u32)
}

/// Rejection threshold of `bound`: `(2^32 - bound) mod bound`.
pub open spec fn reject_threshold(bound: u32) -> u32 {
    (((0x1_0000_0000 - bound) % 0x1_0000_0000) % bound as int) as u32
}

/// Draws from state `s` until an output is at least the threshold (or
/// `fuel` more rejections have happened): the output modulo `bound`, the
/// state after, and the number of outputs consumed.
#[verifier::opaque]
pub open spec fn bounded_draw(s: u64, inc: u64, bound: u32, fuel: nat) -> (u32, u64, nat)
    decreases fuel,
{
    let r = pcg_output(s);
    let s2 = pcg_step(s, inc);
    if r >= reject_threshold(bound) || fuel == 0 {
        ((r % bound) as u32, s2, 1)
    } else {
        let t = bounded_draw(s2, inc, bound, (fuel - 1) as nat);
        (t.0, t.1, t.2 + 1)
    }
}

/// The smallest value in `k..5` that is not in `prev` (0 if none).
pub open spec fn first_free(prev: Seq<i32>, k: nat) -> i32
    decreases 5 - k,
{
    if k >= 5 {
        0
    } else if !prev.contains(k as i32) {
        k as i32
    } else {
        first_free(prev, k + 1)
    }
}

/// Bounded draws (cast to `i32`) from state `s` until one is not in `prev`:
/// the value, the state after, and the number of bounded draws. After
/// `fuel` more repeats the smallest value below 5 not in `prev` is taken.
pub open spec fn pick_fresh(s: u64, inc: u64, n: u32, prev: Seq<i32>, fuel: nat) -> (i32, u64, nat)
    decreases fuel,
{
    let d = bounded_draw(s, inc, n, MAX_RETRIES as nat);
    let r = d.0 as i32;
    if !prev.contains(r) {
        (r, d.1, 1)
    } else if fuel == 0 {
        (first_free(prev, 0), d.1, 1)
    } else {
        let t = pick_fresh(d.1, inc, n, prev, (fuel - 1) as nat);
        (t.0, t.1, t.2 + 1)
    }
}

/// Completes `prefix` to five values by fresh picks: the values, the state
/// after, and the number of bounded draws.
pub open spec fn rand5_from(s: u64, inc: u64, n: u32, prefix: Seq<i32>) -> (Seq<i32>, u64, nat)
    decreases 5 - prefix.len(),
{
    if prefix.len() >= 5 {
        (prefix, s, 0)
    } else {
        let p = pick_fresh(s, inc, n, prefix, MAX_RETRIES as nat);
        let t = rand5_from(p.1, inc, n, prefix.push(p.0));
        (t.0, t.1, t.2 + p.2)
    }
}

/// Fewer than five values leave one of `0..5` free.
proof fn lemma_free_below_five(prev: Seq<i32>)
    requires
        prev.len() <= 4,
    ensures
        exists|k: int| 0 <= k < 5 && !#[trigger] prev.contains(k as i32),
{
    if forall|k: int| 0 <= k < 5 ==> #[trigger] prev.contains(k as i32) {
        let ip = prev.map_values(|v: i32| v as int);
        ip.lemma_cardinality_of_set();
        lemma_int_range(0, 5);
        assert forall|k: int| set_int_range(0, 5).contains(k) implies ip.to_set().contains(k) by {
            assert(prev.contains(k as i32));
            let j = choose|j: int| 0 <= j < prev.len() && prev[j] == k as i32;
            assert(ip[j] == k);
        }
        assert(set_int_range(0, 5).subset_of(ip.to_set()));
        seq_to_set_is_finite(ip);
        lemma_len_subset(set_int_range(0, 5), ip.to_set());
    }
}

proof fn lemma_first_free(prev: Seq<i32>, k: nat)
    requires
        k <= 5,
        exists|j: int| k <= j < 5 && !#[trigger] prev.contains(j as i32),
    ensures
        !prev.contains(first_free(prev, k)),
        0 <= first_free(prev, k) < 5,
    decreases 5 - k,
{
    if prev.contains(k as i32) {
        let j = choose|j: int| k <= j < 5 && !#[trigger] prev.contains(j as i32);
        assert(j != k);
        lemma_first_free(prev, k + 1);
    }
}

proof fn lemma_step(s: u64, inc: u64, m: u64)
    requires
        m == ((s as nat * PCG_MULT as nat) % 0x1_0000_0000_0000_0000) as u64,
    ensures
        (if m + inc > u64::MAX {
            (m + inc - 0x1_0000_0000_0000_0000) as u64
        } else {
            (m + inc) as u64
        }) == pcg_step(s, inc),
{
    let md: int = 0x1_0000_0000_0000_0000;
    lemma_add_mod_noop(s as int * PCG_MULT as int, inc as int, md);
    lemma_mod_twice(inc as int, md);
    assert((inc as int) % md == inc as int);
    assert((m as int + inc as int) % md == (s as int * PCG_MULT as int + inc as int) % md);
}

proof fn lemma_bounded_draw_unfold(s: u64, inc: u64, bound: u32, fuel: nat)
    ensures
        (pcg_output(s) >= reject_threshold(bound) || fuel == 0) ==> bounded_draw(s, inc, bound, fuel).0
            == (pcg_output(s) % bound) as u32 && bounded_draw(s, inc, bound, fuel).1 == pcg_step(
            s,
            inc,
        ),
        !(pcg_output(s) >= reject_threshold(bound) || fuel == 0) ==> bounded_draw(s, inc, bound, fuel).0
            == bounded_draw(pcg_step(s, inc), inc, bound, (fuel - 1) as nat).0 && bounded_draw(
            s,
            inc,
            bound,
            fuel,
        ).1 == bounded_draw(pcg_step(s, inc), inc, bound, (fuel - 1) as nat).1,
{
    reveal_with_fuel(bounded_draw, 2);
}

/// A bounded draw lies in `0..bound`.
pub proof fn lemma_bounded_draw_in_range(s: u64, inc: u64, bound: u32, fuel: nat)
    requires
        bound > 0,
    ensures
        bounded_draw(s, inc, bound, fuel).0 < bound,
    decreases fuel,
{
    reveal_with_fuel(bounded_draw, 2);
    if !(pcg_output(s) >= reject_threshold(bound) || fuel == 0) {
        lemma_bounded_draw_in_range(pcg_step(s, inc), inc, bound, (fuel - 1) as nat);
    }
}

/// A pick is not among the previous values (when there are at most four
/// of them), lies in `0..n`, and consumes at least one bounded draw.
pub proof fn lemma_pick_fresh(s: u64, inc: u64, n: u32, prev: Seq<i32>, fuel: nat)
    requires
        n >= 5,
        prev.len() <= 4,
    ensures
        !prev.contains(pick_fresh(s, inc, n, prev, fuel).0),
        (pick_fresh(s, inc, n, prev, fuel).0 as u32) < n,
        n <= i32::MAX ==> 0 <= pick_fresh(s, inc, n, prev, fuel).0,
        pick_fresh(s, inc, n, prev, fuel).2 >= 1,
    decreases fuel,
{
    let d = bounded_draw(s, inc, n, MAX_RETRIES as nat);
    lemma_bounded_draw_in_range(s, inc, n, MAX_RETRIES as nat);
    if !prev.contains(d.0 as i32) {
        let x = d.0;
        assert((x as i32) as u32 == x) by (bit_vector);
        assert(n <= i32::MAX ==> 0 <= x as i32) by (bit_vector)
            requires x < n;
    } else if fuel == 0 {
        lemma_free_below_five(prev);
        lemma_first_free(prev, 0);
        let f = first_free(prev, 0);
        assert((f as u32) < n) by (bit_vector)
            requires 0 <= f < 5, 5 <= n;
    } else {
        lemma_pick_fresh(d.1, inc, n, prev, (fuel - 1) as nat);
    }
}

/// Pairwise distinct values.
pub open spec fn all_distinct(v: Seq<i32>) -> bool {
    forall|i: int, j: int| 0 <= i < j < v.len() ==> v[i] != v[j]
}

/// Every value is a draw in `0..n` cast to `i32` (so in `0..n` itself when
/// `n` fits in `i32`).
pub open spec fn all_draws_below(v: Seq<i32>, n: u32) -> bool {
    forall|i: int|
        0 <= i < v.len() ==> (#[trigger] v[i] as u32) < n && (n <= i32::MAX ==> 0 <= v[i])
}

/// The sampler completes `prefix` to five values, each in `0..n`, with at
/// least one bounded draw per value added; a distinct prefix gives five
/// pairwise distinct values.
pub proof fn lemma_rand5(s: u64, inc: u64, n: u32, prefix: Seq<i32>)
    requires
        n >= 5,
        prefix.len() <= 5,
        all_draws_below(prefix, n),
    ensures
        rand5_from(s, inc, n, prefix).0.len() == 5,
        rand5_from(s, inc, n, prefix).0.take(prefix.len() as int) == prefix,
        all_draws_below(rand5_from(s, inc, n, prefix).0, n),
        rand5_from(s, inc, n, prefix).2 >= 5 - prefix.len(),
        all_distinct(prefix) ==> all_distinct(rand5_from(s, inc, n, prefix).0),
    decreases 5 - prefix.len(),
{
    if prefix.len() < 5 {
        let p = pick_fresh(s, inc, n, prefix, MAX_RETRIES as nat);
        lemma_pick_fresh(s, inc, n, prefix, MAX_RETRIES as nat);
        let np = prefix.push(p.0);
        assert forall|i: int| 0 <= i < np.len() implies (#[trigger] np[i] as u32) < n && (n <= i32::MAX ==> 0 <= np[i]) by {
            if i < prefix.len() {
                assert(np[i] == prefix[i]);
            }
        }
        if all_distinct(prefix) {
            assert forall|i: int, j: int| 0 <= i < j < np.len() implies np[i] != np[j] by {
                if j == prefix.len() {
                    assert(np[i] == prefix[i]);
                    assert(prefix.contains(np[i]));
                } else {
                    assert(np[i] == prefix[i] && np[j] == prefix[j]);
                }
            }
        }
        lemma_rand5(p.1, inc, n, np);
        let t = rand5_from(p.1, inc, n, np);
        assert(t.0.take(prefix.len() as int) =~= t.0.take(np.len() as int).take(prefix.len() as int));
        assert(np.take(prefix.len() as int) =~= prefix);
    } else {
        assert(prefix.take(prefix.len() as int) =~= prefix);
    }
}

proof fn lemma_wrapping_inc(a: u64)
    ensures
        (if a + 1 > u64::MAX {
            (a + 1 - 0x1_0000_0000_0000_0000) as u64
        } else {
            (a + 1) as u64
        }) == add64(a as int, 1),
{
    if a + 1 <= u64::MAX {
        lemma_small_mod((a + 1) as nat, 0x1_0000_0000_0000_0000);
    }
}

proof fn lemma_add64_assoc(a: u64, k: nat, j: nat)
    ensures
        add64(add64(a as int, k as int) as int, j as int) == add64(a as int, (k + j) as int),
{
    let md: int = 0x1_0000_0000_0000_0000;
    lemma_add_mod_noop(a as int + k as int, j as int, md);
    lemma_add_mod_noop(a as int + k as int + j as int, 0, md);
    lemma_mod_twice(j as int, md);
    assert(((a as int + k as int) % md + j as int) % md == (a as int + k as int + j as int) % md) by {
        lemma_add_mod_noop(a as int + k as int, j as int, md);
        lemma_add_mod_noop((a as int + k as int) % md, j as int, md);
        lemma_mod_twice(a as int + k as int, md);
    }
}

/// The smallest value below 5 not among the first `i` entries of `a`.
fn first_free_exec(a: &[i32; 5], i: usize) -> (r: i32)
    requires
        i <= 5,
    ensures
        r == first_free(a@.take(i as int), 0),
{
    let mut k: i32 = 0;
    while k < 5
        invariant
            0 <= k <= 5,
            i <= 5,
            first_free(a@.take(i as int), 0) == first_free(a@.take(i as int), k as nat),
        decreases 5 - k,
    {
        if !prefix_contains(a, i, k) {
            return k;
        }
        k = k + 1;
    }
    0
}

/// Whether `v` is among the first `i` entries of `a`.
fn prefix_contains(a: &[i32; 5], i: usize, v: i32) -> (b: bool)
    requires
        i <= 5,
    ensures
        b == a@.take(i as int).contains(v),
{
    let mut k: usize = 0;
    while k < i
        invariant
            k <= i <= 5,
            forall|j: int| 0 <= j < k ==> a@[j] != v,
        decreases i - k,
    {
        if a[k] == v {
            assert(a@.take(i as int)[k as int] == v);
            return true;
        }
        k = k + 1;
    }
    assert(!a@.take(i as int).contains(v)) by {
        if a@.take(i as int).contains(v) {
            let j = choose|j: int| 0 <= j < i && a@.take(i as int)[j] == v;
            assert(a@[j] == v);
        }
    }
    false
}

/// Rotate right by `r` bits (`r < 32`).
fn rotr32_exec(x: u32, r: u32) -> (v: u32)
    requires
        r < 32,
    ensures
        v == rotr32(x, r),
{
    if r == 0 {
        x
    } else {
        (x >> r) | (x << (32 - r))
    }
}

/// The PCG32 generator.
#[derive(Clone, Debug, PartialEq, Eq)]
pub struct Pcg32 {
    state: u64,
    inc: u64,
    draws: u64,
}

impl Pcg32 {
    /// Current LCG state.
    pub closed spec fn state_of(&self) -> u64 {
        self.state
    }

    /// Draw counter.
    pub closed spec fn draws_of(&self) -> u64 {
        self.draws
    }

    /// Number of `bounded()` draws so far (wrapping).
    pub fn draws(&self) -> (d: u64)
        ensures
            d == self.draws_of(),
    {
        self.draws
    }

    /// Increment (stream) of the LCG.
    pub closed spec fn inc_of(&self) -> u64 {
        self.inc
    }

    /// `pcg32(seed)` with the default stream (increment).
    pub fn new(seed: u64) -> (r: Self)
        ensures
            r.inc_of() == PCG_DEFAULT_INC,
            r.state_of() == pcg_step(add64(seed as int, PCG_DEFAULT_INC as int), PCG_DEFAULT_INC),
            r.draws_of() == 0,
    {
        Self::with_increment(seed, PCG_DEFAULT_INC)
    }

    /// `pcg32(seed, stream)`: increment `(stream << 1) | 1`.
    pub fn with_stream(seed: u64, stream: u64) -> (r: Self)
        ensures
            r.inc_of() == ((stream << 1u64) | 1u64),
            r.state_of() == pcg_step(add64(seed as int, r.inc_of() as int), r.inc_of()),
            r.draws_of() == 0,
    {
        Self::with_increment(seed, (stream << 1) | 1)
    }

    /// Generator with increment `inc`, state `bump(seed + inc)`.
    fn with_increment(seed: u64, inc: u64) -> (r: Self)
        ensures
            r.inc_of() == inc,
            r.state_of() == pcg_step(add64(seed as int, inc as int), inc),
            r.draws_of() == 0,
    {
        let mut r = Pcg32 { state: seed.wrapping_add(inc), inc, draws: 0 };
        r.state = r.bump(r.state);
        r
    }

    /// The generator the detector uses: seed 271828, default stream.
    pub fn upstream() -> (r: Self)
        ensures
            r.inc_of() == PCG_DEFAULT_INC,
            r.state_of() == pcg_step(add64(DETECTOR_SEED as int, PCG_DEFAULT_INC as int), PCG_DEFAULT_INC),
            r.draws_of() == 0,
    {
        Self::new(DETECTOR_SEED)
    }

    /// One LCG step from `s` with this generator's increment.
    pub fn bump(&self, s: u64) -> (r: u64)
        ensures
            r == pcg_step(s, self.inc_of()),
    {
        let m = s.wrapping_mul(PCG_MULT);
        proof {
            lemma_step(s, self.inc, m);
        }
        m.wrapping_add(self.inc)
    }

    /// XSH-RR output of the current state, then advance the state.
    pub fn next_u32(&mut self) -> (v: u32)
        ensures
            v == pcg_output(old(self).state_of()),
            final(self).state_of() == pcg_step(old(self).state_of(), old(self).inc_of()),
            final(self).inc_of() == old(self).inc_of(),
            final(self).draws_of() == old(self).draws_of(),
    {
        let old_s = self.state;
        self.state = self.bump(old_s);
        let xorshifted = (((old_s >> 18) ^ old_s) >> 27) as u32;
        let rot = (old_s >> 59) as u32;
        assert(old_s >> 59u64 < 32) by (bit_vector);
        rotr32_exec(xorshifted, rot)
    }

    /// Unbiased draw in `0..bound` by rejection: outputs below
    /// `(2^32 - bound) % bound` are redrawn; counts one draw.
    pub fn bounded(&mut self, bound: u32) -> (v: u32)
        requires
            bound > 0,
        ensures
            v == bounded_draw(old(self).state_of(), old(self).inc_of(), bound, MAX_RETRIES as nat).0,
            final(self).state_of() == bounded_draw(
                old(self).state_of(),
                old(self).inc_of(),
                bound,
                MAX_RETRIES as nat,
            ).1,
            final(self).inc_of() == old(self).inc_of(),
            final(self).draws_of() == add64(old(self).draws_of() as int, 1),
            v < bound,
    {
        let threshold = (0u32.wrapping_sub(bound)) % bound;
        assert(threshold == reject_threshold(bound));
        let ghost target = bounded_draw(self.state, self.inc, bound, MAX_RETRIES as nat);
        proof {
            lemma_wrapping_inc(self.draws);
        }
        self.draws = self.draws.wrapping_add(1);
        let ghost d1 = self.draws;
        assert(d1 == vstd::wrapping::u64_specs::wrapping_add(old(self).draws, 1));
        assert(d1 == add64(old(self).draws as int, 1));
        let mut tries: u64 = 0;
        loop
            invariant
                bound > 0,
                threshold == reject_threshold(bound),
                self.inc == old(self).inc,
                self.draws == d1,
                d1 == add64(old(self).draws as int, 1),
                target == bounded_draw(old(self).state, old(self).inc, bound, MAX_RETRIES as nat),
                bounded_draw(self.state, self.inc, bound, (MAX_RETRIES - tries) as nat).0 == target.0,
                bounded_draw(self.state, self.inc, bound, (MAX_RETRIES - tries) as nat).1 == target.1,
            decreases MAX_RETRIES - tries,
        {
            proof {
                lemma_bounded_draw_unfold(self.state, self.inc, bound, (MAX_RETRIES - tries) as nat);
            }
            let r = self.next_u32();
            if r >= threshold || tries == MAX_RETRIES {
                return r % bound;
            }
            tries = tries + 1;
        }
    }

    /// One fresh pick for slot `i`: bounded draws in `0..nn`, cast to `i32`,
    /// until one is not among `perm[..i]`.
    fn pick_slot(&mut self, perm: &[i32; 5], i: usize, nn: u32) -> (r: i32)
        requires
            nn >= 5,
            i < 5,
        ensures
            r == pick_fresh(old(self).state_of(), old(self).inc_of(), nn, perm@.take(i as int), MAX_RETRIES as nat).0,
            final(self).state_of() == pick_fresh(old(self).state_of(), old(self).inc_of(), nn, perm@.take(i as int), MAX_RETRIES as nat).1,
            final(self).inc_of() == old(self).inc_of(),
            final(self).draws_of() == add64(
                old(self).draws_of() as int,
                pick_fresh(old(self).state_of(), old(self).inc_of(), nn, perm@.take(i as int), MAX_RETRIES as nat).2 as int,
            ),
    {
        let ghost prefix = perm@.take(i as int);
        let ghost pick = pick_fresh(self.state, self.inc, nn, prefix, MAX_RETRIES as nat);
        let ghost mut used: nat = 0;
        proof {
            lemma_small_mod(self.draws as nat, 0x1_0000_0000_0000_0000);
        }
        let mut tries: u64 = 0;
        loop
            invariant
                nn >= 5,
                i < 5,
                self.inc == old(self).inc,
                prefix == perm@.take(i as int),
                pick == pick_fresh(old(self).state, old(self).inc, nn, prefix, MAX_RETRIES as nat),
                pick_fresh(self.state, self.inc, nn, prefix, (MAX_RETRIES - tries) as nat).0 == pick.0,
                pick_fresh(self.state, self.inc, nn, prefix, (MAX_RETRIES - tries) as nat).1 == pick.1,
                pick_fresh(self.state, self.inc, nn, prefix, (MAX_RETRIES - tries) as nat).2 + used == pick.2,
                self.draws == add64(old(self).draws as int, used as int),
            decreases MAX_RETRIES - tries,
        {
            let v = self.bounded(nn);
            proof {
                lemma_add64_assoc(old(self).draws, used, 1);
                used = used + 1;
            }
            let r = v as i32;
            if !prefix_contains(perm, i, r) {
                return r;
            }
            if tries == MAX_RETRIES {
                return first_free_exec(perm, i);
            }
            tries = tries + 1;
        }
    }

    /// Five distinct indices in `0..n` (`n` taken as `u32`), each drawn with
    /// [`Pcg32::bounded`] and redrawn while it repeats an earlier one. Should
    /// a slot repeat `u64::MAX` times in a row, it takes the smallest free
    /// value below 5 instead.
    pub fn rand_5_k(&mut self, perm: &mut [i32; 5], n: usize)
        requires
            (n as u32) >= 5,
        ensures
            final(perm)@ == rand5_from(old(self).state_of(), old(self).inc_of(), n as u32, seq![]).0,
            final(self).state_of() == rand5_from(
                old(self).state_of(),
                old(self).inc_of(),
                n as u32,
                seq![],
            ).1,
            final(self).inc_of() == old(self).inc_of(),
            final(self).draws_of() == add64(
                old(self).draws_of() as int,
                rand5_from(old(self).state_of(), old(self).inc_of(), n as u32, seq![]).2 as int,
            ),
            rand5_from(old(self).state_of(), old(self).inc_of(), n as u32, seq![]).2 >= 5,
            all_draws_below(final(perm)@, n as u32),
            all_distinct(final(perm)@),
    {
        proof {
            lemma_rand5(self.state, self.inc, n as u32, seq![]);
        }
        let nn = n as u32;
        let ghost target = rand5_from(self.state, self.inc, nn, seq![]);
        let ghost mut used: nat = 0;
        let mut i: usize = 0;
        proof {
            assert(perm@.take(0) =~= seq![]);
            lemma_small_mod(self.draws as nat, 0x1_0000_0000_0000_0000);
        }
        while i < 5
            invariant
                nn == n as u32,
                nn >= 5,
                i <= 5,
                perm@.len() == 5,
                self.inc == old(self).inc,
                target == rand5_from(old(self).state, old(self).inc, nn, seq![]),
                self.draws == add64(old(self).draws as int, used as int),
                rand5_from(self.state, self.inc, nn, perm@.take(i as int)).0 == target.0,
                rand5_from(self.state, self.inc, nn, perm@.take(i as int)).1 == target.1,
                rand5_from(self.state, self.inc, nn, perm@.take(i as int)).2 + used == target.2,
            decreases 5 - i,
        {
            let ghost prefix = perm@.take(i as int);
            let ghost pk = pick_fresh(self.state, self.inc, nn, prefix, MAX_RETRIES as nat);
            let ghost d0 = self.draws;
            let r = self.pick_slot(perm, i, nn);
            perm[i] = r;
            proof {
                assert(perm@.take(i as int + 1) =~= prefix.push(r));
                lemma_add64_assoc(old(self).draws, used, pk.2);
                used = used + pk.2;
            }
            i = i + 1;
        }
        proof {
            assert(perm@.take(5) =~= perm@);
        }
    }
}

/// A pick is the bounded draw with bound `n` from the current state when
/// that draw is not among the earlier values: it takes that value and
/// leaves the generator where the draw left it.
pub proof fn lemma_pick_is_bounded_draw(s: u64, inc: u64, n: u32, prev: Seq<i32>, fuel: nat)
    requires
        n >= 5,
        !prev.contains(bounded_draw(s, inc, n, MAX_RETRIES as nat).0 as i32),
    ensures
        pick_fresh(s, inc, n, prev, fuel).0 == bounded_draw(s, inc, n, MAX_RETRIES as nat).0 as i32,
        pick_fresh(s, inc, n, prev, fuel).1 == bounded_draw(s, inc, n, MAX_RETRIES as nat).1,
{
}

/// The first index of the five-index sampler is the bounded draw with bound
/// `n` from the same state (what [`Pcg32::bounded`] returns there).
pub proof fn lemma_rand5_first_is_bounded_draw(s: u64, inc: u64, n: u32)
    requires
        n >= 5,
    ensures
        rand5_from(s, inc, n, seq![]).0[0] == bounded_draw(s, inc, n, MAX_RETRIES as nat).0 as i32,
{
    let p = pick_fresh(s, inc, n, seq![], MAX_RETRIES as nat);
    lemma_pick_is_bounded_draw(s, inc, n, seq![], MAX_RETRIES as nat);
    lemma_pick_fresh(s, inc, n, seq![], MAX_RETRIES as nat);
    assert(all_draws_below(seq![p.0], n));
    lemma_rand5(p.1, inc, n, seq![p.0]);
    assert(rand5_from(s, inc, n, seq![]).0 == rand5_from(p.1, inc, n, seq![p.0]).0);
    assert(rand5_from(p.1, inc, n, seq![p.0]).0.take(1)[0] == seq![p.0][0]);
}

} // verus!
