use sherlock_graph::pipeline::DataPaths;
use sherlock_graph::progress::ProgressBar;
use sherlock_graph::rng::{default_num_users, Rng};

fn reference_next(state: &mut u64) -> u64 {
    let mut x = *state;
    x ^= x << 13;
    x ^= x >> 7;
    x ^= x << 17;
    *state = x;
    x.wrapping_mul(0x2545F4914F6CDD1D)
}

#[test]
fn rng_seed_is_mixed() {
    assert_eq!(Rng::new(1).state, 0xDEAD_BEEF_CAFE_BABE);
    assert_eq!(Rng::new(2).state, 0xDEAD_BEEF_CAFE_BABEu64.wrapping_mul(2));
    assert_eq!(Rng::new(0).state, 0);
}

#[test]
fn rng_first_output_of_state_one() {
    let mut r = Rng { state: 1 };
    let out = r.next_u64();
    // 1 ^ 1<<13 = 0x2001; ^ >>7 = 0x2001 ^ 0x40 = 0x2041; ^ <<17 = 0x2041 ^ 0x4082_0000
    assert_eq!(r.state, 0x4082_2041);
    assert_eq!(out, 0x4082_2041u64.wrapping_mul(0x2545F4914F6CDD1D));
}

#[test]
fn rng_matches_xorshift64_star_sequence() {
    let mut r = Rng::new(123_456_789);
    let mut s = r.state;
    for _ in 0..1000 {
        assert_eq!(r.next_u64(), reference_next(&mut s));
        assert_eq!(r.state, s);
        assert_ne!(r.state, 0);
    }
}

#[test]
fn rng_zero_state_stays_zero() {
    let mut r = Rng { state: 0 };
    assert_eq!(r.next_u64(), 0);
    assert_eq!(r.state, 0);
}

#[test]
fn default_users() {
    assert_eq!(default_num_users(), 100_000);
}

#[test]
fn progress_bar_new() {
    let pb = ProgressBar::new("compute_tarjans_scc", 12);
    assert_eq!(pb.label(), "compute_tarjans_scc");
    assert_eq!(pb.total(), 12);
    assert_eq!(pb.width(), 40);
}

#[test]
fn data_paths_hold_optional_sources() {
    let p = DataPaths {
        wallet_history: Some("w.csv"),
        qr_transactions: None,
        service_payments: None,
        remittance: Some("r.csv"),
        disbursements: None,
    };
    assert_eq!(p.wallet_history, Some("w.csv"));
    assert!(p.qr_transactions.is_none());
    assert_eq!(p.remittance, Some("r.csv"));
}

use sherlock_graph::synth::{expand_counts, shuffle};

fn reference_shuffle(pool: &mut Vec<u64>, state: &mut u64) {
    for i in (1..pool.len()).rev() {
        let j = (reference_next(state) as usize) % (i + 1);
        pool.swap(i, j);
    }
}

#[test]
fn expand_counts_repeats_each_user() {
    assert_eq!(expand_counts(&vec![2, 0, 3, 1]), vec![0, 0, 2, 2, 2, 3]);
    assert!(expand_counts(&vec![]).is_empty());
    assert!(expand_counts(&vec![0, 0]).is_empty());
}

#[test]
fn shuffle_matches_fisher_yates_from_the_back() {
    let mut pool: Vec<u64> = (0..50).collect();
    let mut rng = Rng::new(99);
    let mut expected = pool.clone();
    let mut s = rng.state;
    reference_shuffle(&mut expected, &mut s);
    shuffle(&mut pool, &mut rng);
    assert_eq!(pool, expected);
    assert_eq!(rng.state, s);
    assert_ne!(pool, (0..50).collect::<Vec<u64>>());
}

#[test]
fn shuffle_keeps_the_pool_contents() {
    let mut pool = expand_counts(&vec![3, 1, 0, 4]);
    let mut rng = Rng::new(7);
    shuffle(&mut pool, &mut rng);
    let mut sorted = pool.clone();
    sorted.sort();
    assert_eq!(sorted, vec![0, 0, 0, 1, 3, 3, 3, 3]);
}

#[test]
fn shuffle_of_short_pools_draws_nothing() {
    let mut rng = Rng::new(5);
    let before = rng.state;
    let mut one = vec![42u64];
    shuffle(&mut one, &mut rng);
    let mut none: Vec<u64> = Vec::new();
    shuffle(&mut none, &mut rng);
    assert_eq!((one, none.len(), rng.state), (vec![42], 0, before));
}

use sherlock_graph::synth::apportion;

#[test]
fn apportion_caps_and_gives_the_rest_to_the_last_user() {
    assert_eq!(apportion(&vec![3, 4, 5], 10), vec![3, 4, 3]);
    assert_eq!(apportion(&vec![8, 4, 5], 10), vec![8, 2, 0]);
    assert_eq!(apportion(&vec![1, 1, 1], 10), vec![1, 1, 8]);
    assert_eq!(apportion(&vec![7], 2), vec![2]);
    assert!(apportion(&vec![], 5).is_empty());
}

#[test]
fn apportion_sums_to_budget() {
    let wanted: Vec<u64> = (0..40).map(|i| (i * 7 % 11) as u64).collect();
    for total in [0u64, 1, 50, 200, 1000] {
        let out = apportion(&wanted, total);
        assert_eq!(out.iter().sum::<u64>(), total);
        for i in 0..out.len() - 1 {
            assert!(out[i] <= wanted[i]);
        }
    }
}

use sherlock_graph::synth::{cluster_member, other_than};

#[test]
fn cluster_member_wraps_around_population() {
    assert_eq!(cluster_member(2, 100, 5, 1000), 205);
    assert_eq!(cluster_member(9, 100, 50, 920), 30);
    assert_eq!(cluster_member(0, 100, 99, 1), 0);
}

#[test]
fn other_than_avoids_the_source() {
    assert_eq!(other_than(4, 7, 10), 4);
    assert_eq!(other_than(7, 7, 10), 8);
    assert_eq!(other_than(9, 9, 10), 0);
    assert_eq!(other_than(0, 0, 1), 0);
    for n in 2..6 {
        for d in 0..n {
            assert_ne!(other_than(d, d, n), d);
        }
    }
}
