use vela_sim::rng::{Probability, SeedStreams, SplitMix64};

const N: usize = 64;

fn draw(stream: &mut SplitMix64) -> Vec<u64> {
    (0..N).map(|_| stream.next_u64()).collect()
}

fn sequences(seed: u64) -> Vec<Vec<u64>> {
    let mut s = SeedStreams::new(seed);
    vec![
        draw(&mut s.election),
        draw(&mut s.network),
        draw(&mut s.storage),
        draw(&mut s.faults),
        draw(&mut s.workload),
        draw(&mut s.tiebreak),
    ]
}

#[test]
fn identical_seed_reproduces_identical_streams() {
    const SEED: u64 = 0xDEAD_BEEF_CAFE_F00D;
    let first = sequences(SEED);
    let second = sequences(SEED);
    assert_eq!(first, second);
}

#[test]
fn distinct_streams_are_pairwise_decorrelated() {
    const SEED: u64 = 0x0123_4567_89AB_CDEF;
    let seqs = sequences(SEED);
    for i in 0..seqs.len() {
        for j in (i + 1)..seqs.len() {
            assert_ne!(seqs[i], seqs[j], "streams {i} and {j}");
        }
    }
}

#[test]
fn different_seeds_produce_different_streams() {
    let a = sequences(1);
    let b = sequences(2);
    for (i, (sa, sb)) in a.iter().zip(b.iter()).enumerate() {
        assert_ne!(sa, sb, "stream {i}");
    }
}

/// The first words of the generator from the states 0 and 1234567.
#[test]
fn generator_yields_the_published_sequence() {
    let mut zero = SplitMix64::new(0);
    assert_eq!(zero.next_u64(), 0xE220_A839_7B1D_CDAF);
    assert_eq!(zero.next_u64(), 0x6E78_9E6A_A1B9_65F4);
    assert_eq!(zero.next_u64(), 0x06C4_5D18_8009_454F);
    let mut other = SplitMix64::new(1_234_567);
    assert_eq!(other.next_u64(), 6_457_827_717_110_365_317);
    assert_eq!(other.next_u64(), 3_203_168_211_198_807_973);
}

#[test]
fn bounded_draw_is_the_word_modulo_the_bound() {
    let mut words = SplitMix64::new(99);
    let mut bounded = SplitMix64::new(99);
    for bound in [1u64, 2, 7, 1_000, u64::MAX] {
        assert_eq!(bounded.next_below(bound), words.next_u64() % bound);
    }
}

#[test]
fn draw_below_zero_is_zero_and_consumes_nothing() {
    let mut stream = SplitMix64::new(5);
    let before = stream.state;
    assert_eq!(stream.next_below(0), 0);
    assert_eq!(stream.state, before);
}

#[test]
fn certain_and_impossible_chances() {
    let mut stream = SplitMix64::new(17);
    for _ in 0..100 {
        assert!(stream.next_chance(Probability::always()));
        assert!(!stream.next_chance(Probability::never()));
    }
    assert!(Probability::always().is_possible());
    assert!(!Probability::never().is_possible());
}

/// No two different states ever yield one word, however far they advance.
#[test]
fn different_states_never_meet() {
    let mut a = SplitMix64::new(3);
    let mut b = SplitMix64::new(4);
    for _ in 0..1_000 {
        assert_ne!(a.next_u64(), b.next_u64());
    }
}
