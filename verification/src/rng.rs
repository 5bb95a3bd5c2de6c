//! Seeded random-number streams, one per subsystem.
//!
//! Each subsystem of a run draws from a generator of its own, so that drawing in
//! one subsystem never moves another. All six generators are derived from the
//! run's seed.

use vstd::prelude::*;

verus! {

/// What [`SplitMix64`] adds to its state at each draw.
pub const GOLDEN_GAMMA: u64 = 0x9E37_79B9_7F4A_7C15;

/// First multiplier of the SplitMix64 finalizer.
pub const MIX_FIRST: u64 = 0xBF58_476D_1CE4_E5B9;

/// Second multiplier of the SplitMix64 finalizer.
pub const MIX_SECOND: u64 = 0x94D0_49BB_1331_11EB;

/// The number of equally likely outcomes of a [`Probability`] draw: 2^53.
pub const PROBABILITY_TICKS: u64 = 9_007_199_254_740_992;

pub const ELECTION_OFFSET: u64 = 0x1111_1111_1111_1111;

pub const NETWORK_OFFSET: u64 = 0x2222_2222_2222_2222;

pub const STORAGE_OFFSET: u64 = 0x3333_3333_3333_3333;

pub const FAULTS_OFFSET: u64 = 0x4444_4444_4444_4444;

pub const WORKLOAD_OFFSET: u64 = 0x5555_5555_5555_5555;

pub const TIEBREAK_OFFSET: u64 = 0x6666_6666_6666_6666;

/// The SplitMix64 finalizer: what a generator whose state has become `z` returns.
pub open spec fn mix(z: u64) -> u64 {
    let a = (z ^ (z >> 30)).wrapping_mul(MIX_FIRST);
    let b = (a ^ (a >> 27)).wrapping_mul(MIX_SECOND);
    b ^ (b >> 31)
}

/// A probability, as the number of draws out of [`PROBABILITY_TICKS`] that fire.
///
/// A double-precision probability `p` in `[0, 1]` is represented exactly by
/// `ceil(p * 2^53)`: a 53-bit draw `d` satisfies `d / 2^53 < p` iff
/// `d < ceil(p * 2^53)`.
#[derive(Clone, Copy, Debug, PartialEq, Eq, Structural)]
pub struct Probability {
    pub ticks: u64,
}

impl Probability {
    /// The probability that never fires.
    pub fn never() -> (r: Self)
        ensures
            r.ticks == 0,
    {
        Probability { ticks: 0 }
    }

    /// The probability that always fires.
    pub fn always() -> (r: Self)
        ensures
            r.ticks == PROBABILITY_TICKS,
    {
        Probability { ticks: PROBABILITY_TICKS }
    }

    /// Whether a draw can fire at all.
    pub open spec fn possible(self) -> bool {
        self.ticks > 0
    }

    pub fn is_possible(&self) -> (r: bool)
        ensures
            r == self.possible(),
    {
        self.ticks > 0
    }
}

/// The deterministic generator behind every random decision of a run.
#[derive(Clone, Copy, Debug, PartialEq, Eq, Structural)]
pub struct SplitMix64 {
    pub state: u64,
}

impl SplitMix64 {
    /// The generator after one draw.
    pub open spec fn advanced(self) -> SplitMix64 {
        SplitMix64 { state: self.state.wrapping_add(GOLDEN_GAMMA) }
    }

    /// The word that the next draw returns.
    pub open spec fn word(self) -> u64 {
        mix(self.advanced().state)
    }

    /// The value that the next bounded draw returns.
    pub open spec fn below(self, bound: u64) -> u64 {
        if bound == 0 {
            0
        } else {
            self.word() % bound
        }
    }

    /// The generator after a bounded draw; a draw below 0 consumes nothing.
    pub open spec fn advanced_below(self, bound: u64) -> SplitMix64 {
        if bound == 0 {
            self
        } else {
            self.advanced()
        }
    }

    /// Whether the next probability draw fires.
    pub open spec fn fires(self, p: Probability) -> bool {
        (self.word() >> 11) < p.ticks
    }

    /// The generator after `n` draws.
    pub open spec fn advanced_by(self, n: nat) -> SplitMix64
        decreases n,
    {
        if n == 0 {
            self
        } else {
            self.advanced_by((n - 1) as nat).advanced()
        }
    }

    pub fn new(seed: u64) -> (r: Self)
        ensures
            r.state == seed,
    {
        SplitMix64 { state: seed }
    }

    /// Draw the next word.
    pub fn next_u64(&mut self) -> (r: u64)
        ensures
            r == old(self).word(),
            *final(self) == old(self).advanced(),
    {
        self.state = self.state.wrapping_add(GOLDEN_GAMMA);
        let z: u64 = self.state;
        let a: u64 = (z ^ (z >> 30)).wrapping_mul(MIX_FIRST);
        let b: u64 = (a ^ (a >> 27)).wrapping_mul(MIX_SECOND);
        b ^ (b >> 31)
    }

    /// Draw a value in `[0, bound)`, or 0 without drawing when `bound` is 0.
    pub fn next_below(&mut self, bound: u64) -> (r: u64)
        ensures
            r == old(self).below(bound),
            bound > 0 ==> r < bound,
            *final(self) == old(self).advanced_below(bound),
    {
        if bound == 0 {
            return 0;
        }
        self.next_u64() % bound
    }

    /// Draw whether an event of probability `p` happens.
    pub fn next_chance(&mut self, p: Probability) -> (r: bool)
        ensures
            r == old(self).fires(p),
            *final(self) == old(self).advanced(),
    {
        (self.next_u64() >> 11) < p.ticks
    }
}

/// One generator per subsystem, all derived from one run seed.
#[derive(Clone, Copy, Debug)]
pub struct SeedStreams {
    /// Election-timer jitter.
    pub election: SplitMix64,
    /// Drop, reorder and duplicate decisions of the network.
    pub network: SplitMix64,
    /// Storage-fault selection.
    pub storage: SplitMix64,
    /// Fault-schedule selection.
    pub faults: SplitMix64,
    /// Workload generation.
    pub workload: SplitMix64,
    /// Order of events that share an instant.
    pub tiebreak: SplitMix64,
}

impl SeedStreams {
    /// The streams of `seed`, as a function of nothing but `seed`.
    pub open spec fn of(seed: u64) -> SeedStreams {
        SeedStreams {
            election: SplitMix64 { state: seed ^ ELECTION_OFFSET },
            network: SplitMix64 { state: seed ^ NETWORK_OFFSET },
            storage: SplitMix64 { state: seed ^ STORAGE_OFFSET },
            faults: SplitMix64 { state: seed ^ FAULTS_OFFSET },
            workload: SplitMix64 { state: seed ^ WORKLOAD_OFFSET },
            tiebreak: SplitMix64 { state: seed ^ TIEBREAK_OFFSET },
        }
    }

    /// The six streams in field order.
    pub open spec fn all(self) -> Seq<SplitMix64> {
        seq![
            self.election,
            self.network,
            self.storage,
            self.faults,
            self.workload,
            self.tiebreak,
        ]
    }

    /// Derive the six streams from `seed`.
    pub fn new(seed: u64) -> (r: Self)
        ensures
            r == SeedStreams::of(seed),
    {
        SeedStreams {
            election: SplitMix64::new(seed ^ ELECTION_OFFSET),
            network: SplitMix64::new(seed ^ NETWORK_OFFSET),
            storage: SplitMix64::new(seed ^ STORAGE_OFFSET),
            faults: SplitMix64::new(seed ^ FAULTS_OFFSET),
            workload: SplitMix64::new(seed ^ WORKLOAD_OFFSET),
            tiebreak: SplitMix64::new(seed ^ TIEBREAK_OFFSET),
        }
    }
}

/// Multiplication by a constant that has an inverse modulo 2^64 loses nothing.
pub proof fn lemma_wrapping_mul_injective(x: u64, y: u64, c: u64, inverse: u64)
    requires
        (c as int * inverse as int) % 0x1_0000_0000_0000_0000 == 1,
        x.wrapping_mul(c) == y.wrapping_mul(c),
    ensures
        x == y,
{
    let m: int = 0x1_0000_0000_0000_0000;
    let xi = x as int;
    let yi = y as int;
    let ci = c as int;
    let vi = inverse as int;
    assert((xi * ci) % m == (yi * ci) % m);
    vstd::arithmetic::div_mod::lemma_mul_mod_noop_left(xi * ci, vi, m);
    vstd::arithmetic::div_mod::lemma_mul_mod_noop_left(yi * ci, vi, m);
    assert((xi * ci * vi) % m == (yi * ci * vi) % m);
    assert(xi * ci * vi == xi * (ci * vi)) by (nonlinear_arith);
    assert(yi * ci * vi == yi * (ci * vi)) by (nonlinear_arith);
    vstd::arithmetic::div_mod::lemma_mul_mod_noop_right(xi, ci * vi, m);
    vstd::arithmetic::div_mod::lemma_mul_mod_noop_right(yi, ci * vi, m);
    assert((xi * 1) % m == (yi * 1) % m);
    vstd::arithmetic::div_mod::lemma_small_mod(x as nat, m as nat);
    vstd::arithmetic::div_mod::lemma_small_mod(y as nat, m as nat);
}

/// The finalizer never maps two states to one word.
pub proof fn lemma_mix_injective(x: u64, y: u64)
    requires
        mix(x) == mix(y),
    ensures
        x == y,
{
    let ax = (x ^ (x >> 30)).wrapping_mul(MIX_FIRST);
    let ay = (y ^ (y >> 30)).wrapping_mul(MIX_FIRST);
    let bx = (ax ^ (ax >> 27)).wrapping_mul(MIX_SECOND);
    let by_ = (ay ^ (ay >> 27)).wrapping_mul(MIX_SECOND);
    assert(bx == by_) by {
        assert(bx ^ (bx >> 31) == by_ ^ (by_ >> 31) ==> bx == by_) by (bit_vector);
    }
    lemma_wrapping_mul_injective(
        ax ^ (ax >> 27),
        ay ^ (ay >> 27),
        MIX_SECOND,
        0x3196_42B2_D24D_8EC3,
    );
    assert(ax == ay) by {
        assert(ax ^ (ax >> 27) == ay ^ (ay >> 27) ==> ax == ay) by (bit_vector);
    }
    lemma_wrapping_mul_injective(
        x ^ (x >> 30),
        y ^ (y >> 30),
        MIX_FIRST,
        0x96DE_1B17_3F11_9089,
    );
    assert(x ^ (x >> 30) == y ^ (y >> 30) ==> x == y) by (bit_vector);
}

/// Generators in different states differ at every draw: after any number of
/// draws from each, the next words still differ.
pub proof fn law_distinct_states_never_draw_alike(a: SplitMix64, b: SplitMix64, n: nat)
    requires
        a.state != b.state,
    ensures
        a.advanced_by(n).state != b.advanced_by(n).state,
        a.advanced_by(n).word() != b.advanced_by(n).word(),
    decreases n,
{
    if n > 0 {
        law_distinct_states_never_draw_alike(a, b, (n - 1) as nat);
    }
    let x = a.advanced_by(n);
    let y = b.advanced_by(n);
    if x.word() == y.word() {
        lemma_mix_injective(x.advanced().state, y.advanced().state);
    }
}

/// The six streams of one seed start from six different states, so no two of them
/// ever march in lock-step.
pub proof fn law_streams_are_decorrelated(seed: u64, i: int, j: int, n: nat)
    requires
        0 <= i < j < 6,
    ensures
        SeedStreams::of(seed).all()[i].advanced_by(n).word()
            != SeedStreams::of(seed).all()[j].advanced_by(n).word(),
{
    assert(forall|s: u64, p: u64, q: u64| p != q ==> #[trigger] (s ^ p) != #[trigger] (s ^ q))
        by (bit_vector);
    let streams = SeedStreams::of(seed).all();
    law_distinct_states_never_draw_alike(streams[i], streams[j], n);
}

/// Two seeds give every subsystem two different streams.
pub proof fn law_seed_selects_every_stream(seed: u64, other: u64, i: int, n: nat)
    requires
        seed != other,
        0 <= i < 6,
    ensures
        SeedStreams::of(seed).all()[i].advanced_by(n).word()
            != SeedStreams::of(other).all()[i].advanced_by(n).word(),
{
    assert(forall|s: u64, t: u64, p: u64| s != t ==> #[trigger] (s ^ p) != #[trigger] (t ^ p))
        by (bit_vector);
    law_distinct_states_never_draw_alike(
        SeedStreams::of(seed).all()[i],
        SeedStreams::of(other).all()[i],
        n,
    );
}

/// A chance of `ticks` in 2^53 comes up on exactly the words whose leading 53 bits, read
/// as a number, lie below `ticks`: never for no ticks, always for 2^53.
pub proof fn law_chances_by_the_word(stream: SplitMix64, p: Probability)
    ensures
        stream.fires(p) <==> stream.word() / 2048 < p.ticks,
        p.ticks == 0 ==> !stream.fires(p),
        p.ticks >= 0x20_0000_0000_0000 ==> stream.fires(p),
{
    let w = stream.word();
    assert(w >> 11 == w / 2048) by (bit_vector);
}

/// A draw below a bound is the next word modulo the bound, and takes one word; with no
/// bound it is nothing and takes none.
pub proof fn law_draws_below_a_bound(stream: SplitMix64, bound: u64)
    ensures
        bound > 0 ==> stream.below(bound) as int == (stream.word() as int) % (bound as int)
            && stream.advanced_below(bound) == stream.advanced(),
        bound == 0 ==> stream.below(bound) == 0 && stream.advanced_below(bound) == stream,
{
}

/// Some state is followed by each word: every word can be drawn.
pub proof fn law_every_word_can_be_drawn(word: u64) -> (stream: SplitMix64)
    ensures
        stream.word() == word,
{
    let b = word ^ (word >> 31) ^ (word >> 62);
    assert(b ^ (b >> 31) == word) by (bit_vector)
        requires
            b == word ^ (word >> 31) ^ (word >> 62),
    ;
    let x = lemma_wrapping_mul_onto(b, MIX_SECOND, 0x3196_42B2_D24D_8EC3);
    let a = x ^ (x >> 27) ^ (x >> 54);
    assert(a ^ (a >> 27) == x) by (bit_vector)
        requires
            a == x ^ (x >> 27) ^ (x >> 54),
    ;
    let y = lemma_wrapping_mul_onto(a, MIX_FIRST, 0x96DE_1B17_3F11_9089);
    let z = y ^ (y >> 30) ^ (y >> 60);
    assert(z ^ (z >> 30) == y) by (bit_vector)
        requires
            z == y ^ (y >> 30) ^ (y >> 60),
    ;
    let state = if z >= GOLDEN_GAMMA {
        (z - GOLDEN_GAMMA) as u64
    } else {
        (z + 0x1_0000_0000_0000_0000 - GOLDEN_GAMMA) as u64
    };
    let stream = SplitMix64 { state };
    assert(stream.advanced().state == z);
    stream
}

/// Multiplication by a constant that has an inverse modulo 2^64 reaches everything.
proof fn lemma_wrapping_mul_onto(v: u64, c: u64, inverse: u64) -> (x: u64)
    requires
        (c as int * inverse as int) % 0x1_0000_0000_0000_0000 == 1,
    ensures
        x.wrapping_mul(c) == v,
{
    let m: int = 0x1_0000_0000_0000_0000;
    let vi = v as int;
    let ci = c as int;
    let ii = inverse as int;
    let x = ((vi * ii) % m) as u64;
    assert(0 <= (vi * ii) % m < m) by {
        vstd::arithmetic::div_mod::lemma_mod_bound(vi * ii, m);
    }
    assert(x as int == (vi * ii) % m);
    vstd::arithmetic::div_mod::lemma_mul_mod_noop_left(vi * ii, ci, m);
    assert(((vi * ii) % m * ci) % m == (vi * ii * ci) % m);
    assert(vi * ii * ci == vi * (ci * ii)) by (nonlinear_arith);
    vstd::arithmetic::div_mod::lemma_mul_mod_noop_right(vi, ci * ii, m);
    assert((vi * 1) % m == (vi * (ci * ii)) % m);
    vstd::arithmetic::div_mod::lemma_small_mod(v as nat, m as nat);
    assert((x as int * ci) % m == vi);
    x
}

/// A generator steps through its states by one odd constant, so it draws every word once
/// before it repeats one: after n draws its state has moved by n times the constant.
pub proof fn law_states_step_by_a_constant(stream: SplitMix64, n: nat)
    ensures
        stream.advanced_by(n).state as int == (stream.state as int + n * 0x9E37_79B9_7F4A_7C15)
            % 0x1_0000_0000_0000_0000,
    decreases n,
{
    let m: int = 0x1_0000_0000_0000_0000;
    let c: int = 0x9E37_79B9_7F4A_7C15;
    if n > 0 {
        let p = (n - 1) as nat;
        law_states_step_by_a_constant(stream, p);
        let before = stream.advanced_by(p).state as int;
        let sum = stream.state as int + p * c;
        assert(before == sum % m);
        vstd::arithmetic::div_mod::lemma_add_mod_noop(sum, c, m);
        vstd::arithmetic::div_mod::lemma_add_mod_noop(sum % m, c, m);
        vstd::arithmetic::div_mod::lemma_mod_twice(sum, m);
        assert(sum + c == stream.state as int + n * c) by (nonlinear_arith)
            requires
                sum == stream.state as int + p * c,
                n == p + 1,
        ;
        assert(stream.advanced_by(n).state as int == (before + c) % m);
    } else {
        vstd::arithmetic::div_mod::lemma_small_mod(stream.state as nat, m as nat);
    }
}

/// Each subsystem draws from the seed's own stream: its state is the seed with the bits of
/// the subsystem's number in every fourth place turned over.
pub proof fn law_each_subsystem_has_its_stream(seed: u64)
    ensures
        SeedStreams::of(seed).election.state ^ seed == 0x1111_1111_1111_1111u64,
        SeedStreams::of(seed).network.state ^ seed == 0x2222_2222_2222_2222u64,
        SeedStreams::of(seed).storage.state ^ seed == 0x3333_3333_3333_3333u64,
        SeedStreams::of(seed).faults.state ^ seed == 0x4444_4444_4444_4444u64,
        SeedStreams::of(seed).workload.state ^ seed == 0x5555_5555_5555_5555u64,
        SeedStreams::of(seed).tiebreak.state ^ seed == 0x6666_6666_6666_6666u64,
{
    assert(forall|s: u64, p: u64| #[trigger] ((s ^ p) ^ s) == p) by (bit_vector);
}

} // verus!
