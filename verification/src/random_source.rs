//! Where the maze generators get their random numbers: a seeded generator,
//! or a fixed script of numbers that is replayed.

use vstd::prelude::*;
use rand::rngs::StdRng;
use rand::seq::IteratorRandom;
use rand::Rng;
use rand::SeedableRng;

verus! {

/// `rand::rngs::StdRng`, a seeded pseudo-random generator. Nothing is
/// known of its state.
#[verifier::external_type_specification]
#[verifier::external_body]
pub struct ExStdRng(StdRng);

/// The generator in the state that `SeedableRng::seed_from_u64` gives it
/// for a seed.
pub uninterp spec fn seeded_rng(seed: u64) -> StdRng;

/// `SeedableRng::seed_from_u64` of `StdRng`: the generator whose state is
/// computed from the seed and from nothing else.
#[verifier::external_body]
fn rng_from_seed(seed: u64) -> (rng: StdRng)
    ensures
        rng == seeded_rng(seed),
{
    StdRng::seed_from_u64(seed)
}

/// `Rng::gen_range` from 0: some number below `high`.
#[verifier::external_body]
fn rng_below(rng: &mut StdRng, high: usize) -> (drawn: usize)
    requires
        0 < high,
    ensures
        drawn < high,
{
    rng.gen_range(0, high)
}

/// `IteratorRandom::choose` over the items of a vector: one of them, or
/// `None` where there is none.
#[verifier::external_body]
fn rng_choose<T: Copy>(items: &Vec<T>, rng: &mut StdRng) -> (chosen: Option<T>)
    ensures
        items@.len() == 0 ==> chosen is None,
        items@.len() > 0 ==> chosen is Some && items@.contains(chosen.unwrap()),
{
    items.iter().choose(rng).copied()
}

/// Why a source could not give a number.
#[derive(Debug, Copy, Clone, PartialEq, Eq, Structural)]
pub enum SourceError {
    /// The script has no number left.
    Exhausted,
    /// The next number of the script is not below the bound asked for.
    OutOfRange,
}

/// A source of random numbers.
pub enum RandomSource {
    /// A seeded pseudo-random generator. It never fails.
    Seeded(StdRng),
    /// A script: the numbers of `draws` from index `next` on are handed out
    /// in order.
    Scripted { draws: Vec<usize>, next: usize },
}

/// What a script gives when a number below `bound` is asked of it after
/// `used` of its numbers have been handed out.
pub open spec fn draw(script: Seq<usize>, used: nat, bound: nat) -> Result<usize, SourceError> {
    if used >= script.len() {
        Err(SourceError::Exhausted)
    } else if script[used as int] >= bound {
        Err(SourceError::OutOfRange)
    } else {
        Ok(script[used as int])
    }
}

impl RandomSource {
    pub open spec fn wf(&self) -> bool {
        match self {
            RandomSource::Seeded(_) => true,
            RandomSource::Scripted { draws, next } => *next <= draws@.len(),
        }
    }

    /// The numbers that a script has yet to hand out; `None` for a seeded
    /// generator.
    pub open spec fn script(&self) -> Option<Seq<usize>> {
        match self {
            RandomSource::Seeded(_) => None,
            RandomSource::Scripted { draws, next } => Some(draws@.skip(*next as int)),
        }
    }

    /// A generator seeded with `seed`: the seed alone decides the state in
    /// which it starts.
    pub fn from_seed(seed: u64) -> (source: Self)
        ensures
            source == RandomSource::Seeded(seeded_rng(seed)),
            source.wf(),
            source.script() is None,
    {
        RandomSource::Seeded(rng_from_seed(seed))
    }

    /// A source that hands out the numbers of `draws` in order.
    pub fn scripted(draws: Vec<usize>) -> (source: Self)
        ensures
            source.wf(),
            source.script() == Some(draws@),
    {
        assert(draws@.skip(0) =~= draws@);
        RandomSource::Scripted { draws, next: 0 }
    }

    /// A number below `bound`. A seeded generator always gives one. A
    /// script gives its next number and moves on, or fails and stays where
    /// it is.
    pub fn next_below(&mut self, bound: usize) -> (drawn: Result<usize, SourceError>)
        requires
            old(self).wf(),
            0 < bound,
        ensures
            final(self).wf(),
            drawn matches Ok(v) ==> v < bound,
            old(self).script() is None ==> drawn is Ok && final(self).script() is None,
            old(self).script() matches Some(s) ==> drawn == draw(s, 0, bound as nat)
                && final(self).script() == Some(if drawn is Ok { s.skip(1) } else { s }),
    {
        match self {
            RandomSource::Seeded(rng) => Ok(rng_below(rng, bound)),
            RandomSource::Scripted { draws, next } => {
                if *next >= draws.len() {
                    Err(SourceError::Exhausted)
                } else if draws[*next] >= bound {
                    Err(SourceError::OutOfRange)
                } else {
                    let v = draws[*next];
                    assert(draws@.skip(*next as int).skip(1) =~= draws@.skip(*next + 1));
                    *next = *next + 1;
                    Ok(v)
                }
            },
        }
    }

    /// One of the items. A seeded generator always gives one. A script
    /// gives the item at the index that is its next number.
    pub fn pick_from<T: Copy>(&mut self, items: &Vec<T>) -> (chosen: Result<T, SourceError>)
        requires
            old(self).wf(),
            items@.len() > 0,
        ensures
            final(self).wf(),
            chosen matches Ok(item) ==> items@.contains(item),
            old(self).script() is None ==> chosen is Ok && final(self).script() is None,
            old(self).script() matches Some(s) ==> (match draw(s, 0, items@.len()) {
                Ok(i) => chosen == Ok::<T, SourceError>(items@[i as int]) && final(self).script()
                    == Some(s.skip(1)),
                Err(e) => chosen == Err::<T, SourceError>(e) && final(self).script() == Some(s),
            }),
    {
        match self {
            RandomSource::Seeded(rng) => {
                let chosen = rng_choose(items, rng);
                Ok(chosen.unwrap())
            },
            RandomSource::Scripted { draws, next } => {
                if *next >= draws.len() {
                    Err(SourceError::Exhausted)
                } else if draws[*next] >= items.len() {
                    Err(SourceError::OutOfRange)
                } else {
                    let i = draws[*next];
                    assert(draws@.skip(*next as int).skip(1) =~= draws@.skip(*next + 1));
                    *next = *next + 1;
                    Ok(items[i])
                }
            },
        }
    }
}

/// Whether `short` is the beginning of `long`.
pub open spec fn is_prefix(short: Seq<usize>, long: Seq<usize>) -> bool {
    short.len() <= long.len() && forall|i: int| 0 <= i < short.len() ==> short[i] == long[i]
}

/// How a source stands to a computation that has used `used` of the
/// numbers `drawn`: a script is `drawn` and holds what has not been used;
/// of a seeded generator every number drawn so far has been used.
pub open spec fn source_follows(
    script: Option<Seq<usize>>,
    drawn: Seq<usize>,
    used: nat,
    rest: Option<Seq<usize>>,
) -> bool {
    match script {
        Some(s) => drawn == s && used <= s.len() && rest == Some(s.skip(used as int)),
        None => used == drawn.len() && rest is None,
    }
}

/// Asking the rest of a script is asking the script after what went
/// before.
pub proof fn lemma_draw_skip(script: Seq<usize>, used: nat, bound: nat)
    requires
        used <= script.len(),
    ensures
        draw(script.skip(used as int), 0, bound) == draw(script, used, bound),
{
}

} // verus!
