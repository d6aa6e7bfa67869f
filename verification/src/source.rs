//! Sources of uniform draws.
use crate::frac::SCALE;
use rand::RngCore;
use rand::SeedableRng;
use rand_pcg::Pcg64Mcg;
use vstd::prelude::*;

verus! {

/// The generator behind [`PcgSource`], opaque to the verifier.
#[verifier::external_type_specification]
#[verifier::external_body]
pub struct ExMcg128Xsl64(rand_pcg::Mcg128Xsl64);

/// `RngCore::next_u64` of `rand_pcg::Pcg64Mcg`: steps the generator and
/// returns its next 64 bits. Nothing is claimed of the value.
#[verifier::external_body]
fn pcg_next_u64(rng: &mut Pcg64Mcg) -> u64 {
    rng.next_u64()
}

/// `SeedableRng::seed_from_u64` of `rand_pcg::Pcg64Mcg`: a generator whose
/// stream is fixed by `seed`. Nothing is claimed of the generator.
#[verifier::external_body]
fn pcg_seed_from_u64(seed: u64) -> Pcg64Mcg {
    Pcg64Mcg::seed_from_u64(seed)
}

/// `RngCore::next_u64` of the generator that `rand::thread_rng` hands to the
/// calling thread. Nothing is claimed of the value.
#[verifier::external_body]
fn thread_next_u64() -> u64 {
    rand::thread_rng().next_u64()
}

/// The 53 most significant bits of a 64-bit word.
fn top_bits(word: u64) -> (u: u64)
    ensures
        u == word / 2048,
        u < SCALE,
{
    assert(word >> 11 == word / 2048 && (word >> 11) < 9_007_199_254_740_992u64) by (bit_vector);
    word >> 11
}

/// The draws that a source made between a moment at which it had made the
/// draws `before` and a later one at which it had made the draws `after`.
pub open spec fn fresh_draws(before: Seq<u64>, after: Seq<u64>) -> Seq<u64> {
    after.skip(before.len() as int)
}

/// The draws made after `before` are what was appended to it.
pub proof fn lemma_fresh_draws(before: Seq<u64>, d: Seq<u64>)
    ensures
        before.is_prefix_of(before + d),
        fresh_draws(before, before + d) == d,
{
    assert((before + d).skip(before.len() as int) =~= d);
    assert((before + d).subrange(0, before.len() as int) =~= before);
}

/// Whether every draw of `d` is in range: below [`SCALE`].
pub open spec fn in_range(d: Seq<u64>) -> bool {
    forall|i: int| 0 <= i < d.len() ==> #[trigger] d[i] < SCALE
}

/// Whether the draws `d` are what was known of them beforehand: each draw
/// that `known` reaches is the one that `known` holds in its place.
pub open spec fn foretold(known: Seq<u64>, d: Seq<u64>) -> bool {
    forall|i: int| 0 <= i < d.len() && i < known.len() ==> #[trigger] d[i] == known[i]
}

/// What is still known beforehand once `k` of the draws have been made.
pub open spec fn left_after(known: Seq<u64>, k: nat) -> Seq<u64> {
    if k <= known.len() {
        known.skip(k as int)
    } else {
        Seq::empty()
    }
}

/// Draws made in two parts are what was known beforehand if each part is,
/// the second against what the first part left.
pub proof fn lemma_foretold_join(known: Seq<u64>, d1: Seq<u64>, d2: Seq<u64>)
    requires
        foretold(known, d1),
        foretold(left_after(known, d1.len()), d2),
    ensures
        foretold(known, d1 + d2),
        left_after(left_after(known, d1.len()), d2.len()) == left_after(
            known,
            (d1 + d2).len(),
        ),
{
    let rest = left_after(known, d1.len());
    assert forall|i: int| 0 <= i < (d1 + d2).len() && i < known.len() implies #[trigger] (d1
        + d2)[i] == known[i] by {
        if i >= d1.len() {
            let j = i - d1.len();
            assert(d2[j] == rest[j]);
        }
    }
    assert(left_after(rest, d2.len()) =~= left_after(known, (d1 + d2).len()));
}

/// Draws that were known beforehand were so in each of their two parts, the
/// second against what the first part left.
pub proof fn lemma_foretold_split(known: Seq<u64>, d1: Seq<u64>, d2: Seq<u64>)
    requires
        foretold(known, d1 + d2),
    ensures
        foretold(known, d1),
        foretold(left_after(known, d1.len()), d2),
{
    let d = d1 + d2;
    let rest = left_after(known, d1.len());
    assert forall|i: int| 0 <= i < d1.len() && i < known.len() implies #[trigger] d1[i]
        == known[i] by {
        assert(d[i] == d1[i]);
    }
    assert forall|i: int| 0 <= i < d2.len() && i < rest.len() implies #[trigger] d2[i]
        == rest[i] by {
        assert(d[d1.len() + i] == d2[i]);
    }
}

/// Something that produces uniform draws from `[0, 1)`.
///
/// A draw `u` stands for the real number `u / SCALE`. Every trial that runs
/// concurrently with another needs a source of its own.
pub trait UniformSource {
    /// The draws made so far, oldest first.
    spec fn drawn(&self) -> Seq<u64>;

    /// The draws to come that are known beforehand, next first: none for a
    /// source of chance, the rest of the recording for one that replays.
    spec fn known(&self) -> Seq<u64>;

    /// The next draw: the first of the draws known beforehand, if there is
    /// one.
    fn draw(&mut self) -> (u: u64)
        ensures
            u < SCALE,
            final(self).drawn() == old(self).drawn().push(u),
            old(self).known().len() > 0 ==> u == old(self).known()[0],
            final(self).known() == left_after(old(self).known(), 1),
    ;
}

/// A fast, seedable pseudo-random source with a reproducible stream.
pub struct PcgSource {
    rng: Pcg64Mcg,
    drawn: Ghost<Seq<u64>>,
}

impl PcgSource {
    /// A source that draws from `rng`.
    pub fn new(rng: Pcg64Mcg) -> (s: PcgSource)
        ensures
            s.drawn() == Seq::<u64>::empty(),
    {
        PcgSource { rng, drawn: Ghost(Seq::empty()) }
    }

    /// A source seeded with `seed`. The generator is opaque here: no
    /// contract speaks of the stream that a seed gives.
    pub fn seeded(seed: u64) -> (s: PcgSource)
        ensures
            s.drawn() == Seq::<u64>::empty(),
    {
        PcgSource { rng: pcg_seed_from_u64(seed), drawn: Ghost(Seq::empty()) }
    }
}

impl UniformSource for PcgSource {
    closed spec fn drawn(&self) -> Seq<u64> {
        self.drawn@
    }

    open spec fn known(&self) -> Seq<u64> {
        Seq::empty()
    }

    fn draw(&mut self) -> (u: u64) {
        let u = top_bits(pcg_next_u64(&mut self.rng));
        self.drawn = Ghost(self.drawn@.push(u));
        u
    }
}

/// The entropy-seeded source of the calling thread.
pub struct ThreadSource {
    drawn: Ghost<Seq<u64>>,
}

impl ThreadSource {
    /// The calling thread's source.
    pub fn new() -> (s: ThreadSource)
        ensures
            s.drawn() == Seq::<u64>::empty(),
    {
        ThreadSource { drawn: Ghost(Seq::empty()) }
    }
}

impl UniformSource for ThreadSource {
    closed spec fn drawn(&self) -> Seq<u64> {
        self.drawn@
    }

    open spec fn known(&self) -> Seq<u64> {
        Seq::empty()
    }

    fn draw(&mut self) -> (u: u64) {
        let u = top_bits(thread_next_u64());
        self.drawn = Ghost(self.drawn@.push(u));
        u
    }
}

/// The draw that a recorded value stands for: the value itself, or the
/// largest draw if the value is out of range.
pub open spec fn recorded_draw(value: u64) -> u64 {
    if value < SCALE {
        value
    } else {
        (SCALE - 1) as u64
    }
}

/// The draws that a recording stands for.
pub open spec fn replayed(recording: Seq<u64>) -> Seq<u64> {
    Seq::new(recording.len(), |i: int| recorded_draw(recording[i]))
}

/// A source that replays recorded draws. Once the recording is used up,
/// every draw is the largest there is.
pub struct ReplaySource {
    recording: Vec<u64>,
    at: usize,
    drawn: Ghost<Seq<u64>>,
}

impl ReplaySource {
    #[verifier::type_invariant]
    spec fn within_recording(self) -> bool {
        self.at <= self.recording@.len()
    }

    /// A source that replays `recording` from its start.
    pub fn new(recording: Vec<u64>) -> (s: ReplaySource)
        ensures
            s.known() == replayed(recording@),
            s.drawn() == Seq::<u64>::empty(),
    {
        let s = ReplaySource { recording, at: 0, drawn: Ghost(Seq::empty()) };
        assert(replayed(s.recording@).skip(0) =~= replayed(s.recording@));
        s
    }
}

impl UniformSource for ReplaySource {
    closed spec fn drawn(&self) -> Seq<u64> {
        self.drawn@
    }

    closed spec fn known(&self) -> Seq<u64> {
        replayed(self.recording@).skip(self.at as int)
    }

    fn draw(&mut self) -> (u: u64)
        ensures
            old(self).known().len() == 0 ==> u == SCALE - 1,
    {
        proof {
            use_type_invariant(&*self);
        }
        let ghost before = self.known();
        let u = if self.at < self.recording.len() {
            let value = self.recording[self.at];
            self.at = self.at + 1;
            if value < SCALE {
                value
            } else {
                SCALE - 1
            }
        } else {
            SCALE - 1
        };
        self.drawn = Ghost(self.drawn@.push(u));
        assert(self.known() =~= left_after(before, 1));
        u
    }
}

} // verus!
