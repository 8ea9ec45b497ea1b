//! What a run is configured with, the generator that holds the random
//! stream of a run, and the counter that numbers the mutants.

use crate::random::{seeded, seeded_stream};
use rand_pcg::Pcg64;
use vstd::prelude::*;

verus! {

/// What the generator is started with.
#[derive(Debug)]
pub struct MutationParams {
    /// The directory to store the mutants in.
    pub outdir: String,
    /// The files to mutate.
    pub filenames: Vec<String>,
    /// The seed of the random stream.
    pub seed: u64,
}

impl Default for MutationParams {
    /// The directory `out`, no file, and the seed 0.
    fn default() -> (params: Self)
        ensures
            params.outdir@ == "out"@,
            params.filenames@.len() == 0,
            params.seed == 0,
    {
        MutationParams { outdir: String::from_str("out"), filenames: Vec::new(), seed: 0 }
    }
}

/// The full set of options of a run.
#[derive(Debug)]
pub struct MutateParams {
    /// A file with the options.
    pub json: Option<String>,
    /// The files to mutate.
    pub filename: Option<Vec<String>>,
    /// The number of mutants asked for; where there is none, one mutant is
    /// asked for per mutation point.
    pub num_mutants: Option<usize>,
    /// The seed of the random stream.
    pub seed: Option<u64>,
    /// The directory to store the mutants in.
    pub outdir: String,
    /// Whether to keep a log of the mutants.
    pub log_mutants: bool,
    /// Whether to store the full text of each mutant.
    pub export_mutants: bool,
    /// The name of the compiler.
    pub solc: String,
    /// The functions to mutate.
    pub fns_to_mutate: Option<Vec<String>>,
    /// The contract to mutate.
    pub contract_to_mutate: Option<String>,
    /// The compiler's base path.
    pub solc_basepath: Option<String>,
    /// The paths that the compiler may read.
    pub solc_allowpaths: Option<Vec<String>>,
    /// The compiler's remappings.
    pub solc_remapping: Option<Vec<String>>,
    /// Whether to compile each mutant.
    pub validate: bool,
}

impl MutateParams {
    /// The number of mutants to ask for where `points` mutation points were
    /// found: the number given, or one per mutation point.
    pub fn target(&self, points: usize) -> (n: usize)
        ensures
            n == match self.num_mutants {
                Some(asked) => asked,
                None => points,
            },
    {
        match self.num_mutants {
            Some(asked) => asked,
            None => points,
        }
    }

    /// The seed of the random stream: the seed given, or 0.
    pub fn seed_or_default(&self) -> (seed: u64)
        ensures
            seed == match self.seed {
                Some(given) => given,
                None => 0,
            },
    {
        match self.seed {
            Some(given) => given,
            None => 0,
        }
    }
}

/// The generator of the mutants of a run: its parameters and its random
/// stream.
pub struct MutantGenerator {
    /// What the generator was started with.
    pub params: MutationParams,
    /// The random stream.
    pub rng: Pcg64,
}

impl MutantGenerator {
    /// A generator with these parameters, whose random stream starts from
    /// the parameters' seed.
    pub fn new(params: MutationParams) -> (generator: Self)
        ensures
            generator.params == params,
            generator.rng == seeded_stream(params.seed),
    {
        MutantGenerator { rng: seeded(params.seed), params }
    }
}

/// A counter that numbers the mutants of a process. Each part of a program
/// that numbers mutants is handed the counter.
#[derive(Debug, Clone, Copy)]
pub struct MutantCounter {
    /// The number that was given out last.
    pub count: u64,
}

impl MutantCounter {
    /// A counter that has given out no number yet.
    pub fn new() -> (counter: Self)
        ensures
            counter.count == 0,
    {
        MutantCounter { count: 0 }
    }
}

/// The next mutant number: one more than the last one given out, which the
/// counter then holds.
pub fn next_mid(counter: &mut MutantCounter) -> (id: u64)
    requires
        old(counter).count < u64::MAX,
    ensures
        id == old(counter).count + 1,
        final(counter).count == id,
{
    counter.count = counter.count + 1;
    counter.count
}

/// The mutant number that was given out last; 0 before the first.
pub fn current_mid(counter: &MutantCounter) -> (id: u64)
    ensures
        id == counter.count,
{
    counter.count
}

} // verus!
