//! Random frameworks and random update lines for them.
//!
//! The generator draws a framework, then a sequence of update lines, each of
//! which is legal for the framework as the earlier lines left it. Random
//! draws come from the `rand` crate; everything that is decided from them is
//! verified here.
pub mod explicit_laws;
pub mod framework;
pub mod terse_laws;
pub mod types;
pub mod update;

use rand::rngs::SmallRng;
use rand::Rng;
use vstd::prelude::*;
use vstd::string::StringExecFns;

pub use crate::generator::framework::AF;
pub use crate::generator::update::{UpdateKind, UpdateLine};
use crate::text::{decimal, push_decimal};

verus! {

/// Possible output formats.
#[derive(Debug, Clone, Copy, PartialEq, Eq, Structural)]
pub enum Format {
    /// The explicit format: `arg(a1).`, `att(a1, a2).`, `opt(arg(a1)).`
    Apx,
    /// The terse format: one name per line, `#`, one pair per line.
    Tgf,
}

impl Default for Format {
    fn default() -> (format: Self)
        ensures
            format == Format::Tgf,
    {
        Format::Tgf
    }
}

impl Format {
    /// File name ending of a framework file in this format.
    pub open spec fn initial_file_ending(self) -> Seq<char> {
        match self {
            Format::Apx => "apx"@,
            Format::Tgf => "tgf"@,
        }
    }

    /// File name ending of an update file in this format.
    pub open spec fn update_file_ending(self) -> Seq<char> {
        match self {
            Format::Apx => "apxm"@,
            Format::Tgf => "tgfm"@,
        }
    }

    pub fn as_initial_file_ending(&self) -> (ending: &'static str)
        ensures
            ending@ == self.initial_file_ending(),
    {
        match self {
            Format::Apx => "apx",
            Format::Tgf => "tgf",
        }
    }

    pub fn as_update_file_ending(&self) -> (ending: &'static str)
        ensures
            ending@ == self.update_file_ending(),
    {
        match self {
            Format::Apx => "apxm",
            Format::Tgf => "tgfm",
        }
    }
}

impl Format {
    /// What the name of the framework file adds to the name of the output.
    pub open spec fn initial_suffix(self) -> Seq<char> {
        "-initial."@ + self.initial_file_ending()
    }

    /// What the name of the update file adds to the name of the output.
    pub open spec fn update_suffix(self) -> Seq<char> {
        "-updates."@ + self.update_file_ending()
    }

    /// What the name of the file that holds the framework after `nr`
    /// updates adds to the name of the output.
    pub open spec fn intermediate_suffix(self, nr: usize) -> Seq<char> {
        "-intermediate-"@ + decimal(nr as nat) + "."@ + self.initial_file_ending()
    }

    /// Computes [`Format::initial_suffix`].
    pub fn initial_file_suffix(&self) -> (suffix: String)
        ensures
            suffix@ == self.initial_suffix(),
    {
        let mut suffix = String::from_str("-initial.");
        suffix.append(self.as_initial_file_ending());
        suffix
    }

    /// Computes [`Format::update_suffix`].
    pub fn update_file_suffix(&self) -> (suffix: String)
        ensures
            suffix@ == self.update_suffix(),
    {
        let mut suffix = String::from_str("-updates.");
        suffix.append(self.as_update_file_ending());
        suffix
    }

    /// Computes [`Format::intermediate_suffix`].
    pub fn intermediate_file_suffix(&self, nr: usize) -> (suffix: String)
        ensures
            suffix@ == self.intermediate_suffix(nr),
    {
        let mut suffix = String::from_str("-intermediate-");
        push_decimal(&mut suffix, nr);
        suffix.append(".");
        suffix.append(self.as_initial_file_ending());
        suffix
    }
}

/// A probability given as a ratio of two integers.
#[derive(Debug, Clone, Copy)]
pub struct Probability {
    pub numerator: u32,
    pub denominator: u32,
}

impl Probability {
    /// A ratio is a probability if it lies between zero and one.
    pub open spec fn wf(&self) -> bool {
        0 < self.denominator && self.numerator <= self.denominator
    }

    /// The probability `numerator / denominator`, if that is one.
    pub fn new(numerator: u32, denominator: u32) -> (probability: Option<Self>)
        ensures
            probability is Some <==> 0 < denominator && numerator <= denominator,
            probability matches Some(p) ==> p.numerator == numerator && p.denominator
                == denominator && p.wf(),
    {
        if 0 < denominator && numerator <= denominator {
            Some(Probability { numerator, denominator })
        } else {
            None
        }
    }
}

/// `SmallRng` of the `rand` crate: a source of random numbers, handed on to
/// the crate as it is.
#[verifier::external_type_specification]
#[verifier::external_body]
pub struct ExSmallRng(SmallRng);

/// `Rng::gen_range` of the `rand` crate on the range `0..len`: some index
/// below `len`. The crate panics on an empty range, so `len` must be positive.
#[verifier::external_body]
pub(crate) fn pick_index(rng: &mut SmallRng, len: usize) -> (index: usize)
    requires
        len > 0,
    ensures
        index < len,
{
    rng.gen_range(0..len)
}

/// `Rng::gen_ratio` of the `rand` crate: a coin that shows `true` with the
/// given probability. The crate promises `true` for the ratio one and `false`
/// for the ratio zero, and panics where the ratio is no probability.
#[verifier::external_body]
pub(crate) fn flip(rng: &mut SmallRng, probability: &Probability) -> (heads: bool)
    requires
        probability.wf(),
    ensures
        probability.numerator == probability.denominator ==> heads,
        probability.numerator == 0 ==> !heads,
{
    rng.gen_ratio(probability.numerator, probability.denominator)
}

/// What the generator is asked to produce.
#[derive(Debug, Clone, Copy)]
pub struct Config {
    /// Number of arguments of the framework.
    pub arg_count: usize,
    /// Number of update lines to generate.
    pub nr_of_updates: usize,
    /// Format of the texts.
    pub format: Format,
    /// Probability of an attack between two given arguments.
    pub edge: Probability,
    /// Probability by which a dead attack that touches a newly enabled
    /// argument is enabled along with it.
    pub edge_when_adding_arg: Probability,
    /// Probability by which an argument is optional.
    pub arg_optional: Probability,
    /// Probability by which an attack is optional.
    pub attack_optional: Probability,
    /// Whether the framework is written out again after every update.
    pub output_intermediates: bool,
}

impl Config {
    pub open spec fn wf(&self) -> bool {
        &&& self.edge.wf()
        &&& self.edge_when_adding_arg.wf()
        &&& self.arg_optional.wf()
        &&& self.attack_optional.wf()
    }
}

} // verus!
