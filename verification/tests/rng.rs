use cctag::robust::rng::{Pcg32, PCG_DEFAULT_INC, PCG_MULT};

#[test]
fn pcg32_known_stream() {
    // Published output of PCG32 seeded with state 42 on stream 54.
    let mut r = Pcg32::with_stream(42, 54);
    let expected = [0xa15c02b7u32, 0x7b47f409, 0xba1d3330, 0x83d2f293, 0xbfa4784b, 0xcbed606e];
    for e in expected {
        assert_eq!(r.next_u32(), e);
    }
}

#[test]
fn pcg32_new_uses_default_stream() {
    let mut a = Pcg32::new(7);
    let mut b = Pcg32::with_stream(7, PCG_DEFAULT_INC >> 1);
    for _ in 0..10 {
        assert_eq!(a.next_u32(), b.next_u32());
    }
    assert_eq!(Pcg32::upstream(), Pcg32::new(271828));
}

#[test]
fn pcg32_bump_is_lcg_step() {
    let r = Pcg32::with_stream(0, 0);
    assert_eq!(r.bump(0), 1);
    assert_eq!(r.bump(1), PCG_MULT.wrapping_add(1));
    assert_eq!(r.bump(u64::MAX), u64::MAX.wrapping_mul(PCG_MULT).wrapping_add(1));
}

#[test]
fn bounded_draws_stay_below_bound_and_count() {
    let mut r = Pcg32::upstream();
    for bound in [1u32, 2, 3, 5, 7, 100, 1000, 0x8000_0001, u32::MAX] {
        for _ in 0..50 {
            assert!(r.bounded(bound) < bound);
        }
    }
    assert_eq!(r.draws(), 9 * 50);
}

#[test]
fn bounded_matches_rejection_rule() {
    // Replay the rule by hand on a clone of the generator.
    let mut a = Pcg32::new(123);
    let mut b = a.clone();
    let bound = 0x9000_0000u32;
    let threshold = 0u32.wrapping_sub(bound) % bound;
    for _ in 0..200 {
        let v = a.bounded(bound);
        let expect = loop {
            let x = b.next_u32();
            if x >= threshold {
                break x % bound;
            }
        };
        assert_eq!(v, expect);
    }
}

#[test]
fn rand_5_k_gives_distinct_indices_in_range() {
    let mut r = Pcg32::upstream();
    for n in [5usize, 6, 8, 20, 60, 1000] {
        for _ in 0..100 {
            let mut perm = [0i32; 5];
            r.rand_5_k(&mut perm, n);
            for i in 0..5 {
                assert!(perm[i] >= 0 && (perm[i] as usize) < n);
                for j in 0..i {
                    assert_ne!(perm[i], perm[j]);
                }
            }
        }
    }
}

#[test]
fn rand_5_k_with_five_candidates_is_a_permutation() {
    let mut r = Pcg32::new(1);
    let mut perm = [0i32; 5];
    r.rand_5_k(&mut perm, 5);
    let mut sorted = perm;
    sorted.sort();
    assert_eq!(sorted, [0, 1, 2, 3, 4]);
}

#[test]
fn rand_5_k_gives_five_distinct_indices_and_counts_draws() {
    let mut r = Pcg32::new(99);
    for n in [5usize, 6, 10, 1000] {
        let mut perm = [0i32; 5];
        let d0 = r.draws();
        r.rand_5_k(&mut perm, n);
        assert!(r.draws() >= d0 + 5);
        for i in 0..5 {
            assert!(perm[i] >= 0 && (perm[i] as usize) < n);
            for j in i + 1..5 {
                assert_ne!(perm[i], perm[j]);
            }
        }
    }
}
