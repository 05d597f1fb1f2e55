//! The tasks that the command line offers.
use vstd::prelude::*;

use crate::semantics::Kind;

verus! {

/// Enumeration of all possible tasks. The name of a task says what is
/// asked for (count, enumerate or sample the extensions), under which
/// criterion (admissible, complete or stable), and whether the updates are
/// to be followed.
#[derive(Debug, Clone, Copy, PartialEq, Eq, Structural)]
pub enum CliTask {
    CeAd,
    CeAdD,
    CeCo,
    CeCoD,
    CeSt,
    CeStD,
    EeAd,
    EeAdD,
    EeCo,
    EeCoD,
    EeSt,
    EeStD,
    SeAd,
    SeAdD,
    SeCo,
    SeCoD,
    SeSt,
    SeStD,
}

/// What is asked for.
#[derive(Debug, Clone, Copy, PartialEq, Eq, Structural)]
pub enum Problem {
    /// The number of extensions.
    CountExtensions,
    /// Every extension.
    EnumerateExtensions,
    /// Some extension, if there is one.
    SampleExtension,
}

/// Whether the answer is given once, for the framework as it was loaded, or
/// again after every update line.
#[derive(Debug, Clone, Copy, PartialEq, Eq, Structural)]
pub enum Dynamics {
    No,
    Yes,
}

impl CliTask {
    /// What the task asks for.
    pub open spec fn asks(self) -> Problem {
        match self {
            CliTask::CeAd | CliTask::CeAdD | CliTask::CeCo | CliTask::CeCoD | CliTask::CeSt
            | CliTask::CeStD => Problem::CountExtensions,
            CliTask::EeAd | CliTask::EeAdD | CliTask::EeCo | CliTask::EeCoD | CliTask::EeSt
            | CliTask::EeStD => Problem::EnumerateExtensions,
            CliTask::SeAd | CliTask::SeAdD | CliTask::SeCo | CliTask::SeCoD | CliTask::SeSt
            | CliTask::SeStD => Problem::SampleExtension,
        }
    }

    /// The criterion of the task.
    pub open spec fn criterion(self) -> Kind {
        match self {
            CliTask::CeAd | CliTask::CeAdD | CliTask::EeAd | CliTask::EeAdD | CliTask::SeAd
            | CliTask::SeAdD => Kind::Admissible,
            CliTask::CeCo | CliTask::CeCoD | CliTask::EeCo | CliTask::EeCoD | CliTask::SeCo
            | CliTask::SeCoD => Kind::Complete,
            CliTask::CeSt | CliTask::CeStD | CliTask::EeSt | CliTask::EeStD | CliTask::SeSt
            | CliTask::SeStD => Kind::Stable,
        }
    }

    /// Whether the task follows the updates.
    pub open spec fn follows_updates(self) -> bool {
        match self {
            CliTask::CeAdD | CliTask::CeCoD | CliTask::CeStD | CliTask::EeAdD | CliTask::EeCoD
            | CliTask::EeStD | CliTask::SeAdD | CliTask::SeCoD | CliTask::SeStD => true,
            _ => false,
        }
    }

    /// Computes [`CliTask::asks`].
    pub fn problem(&self) -> (problem: Problem)
        ensures
            problem == self.asks(),
    {
        match self {
            CliTask::CeAd | CliTask::CeAdD | CliTask::CeCo | CliTask::CeCoD | CliTask::CeSt
            | CliTask::CeStD => Problem::CountExtensions,
            CliTask::EeAd | CliTask::EeAdD | CliTask::EeCo | CliTask::EeCoD | CliTask::EeSt
            | CliTask::EeStD => Problem::EnumerateExtensions,
            CliTask::SeAd | CliTask::SeAdD | CliTask::SeCo | CliTask::SeCoD | CliTask::SeSt
            | CliTask::SeStD => Problem::SampleExtension,
        }
    }

    /// Computes [`CliTask::criterion`].
    pub fn semantics(&self) -> (kind: Kind)
        ensures
            kind == self.criterion(),
    {
        match self {
            CliTask::CeAd | CliTask::CeAdD | CliTask::EeAd | CliTask::EeAdD | CliTask::SeAd
            | CliTask::SeAdD => Kind::Admissible,
            CliTask::CeCo | CliTask::CeCoD | CliTask::EeCo | CliTask::EeCoD | CliTask::SeCo
            | CliTask::SeCoD => Kind::Complete,
            CliTask::CeSt | CliTask::CeStD | CliTask::EeSt | CliTask::EeStD | CliTask::SeSt
            | CliTask::SeStD => Kind::Stable,
        }
    }

    /// Whether the answer is to be given again after every update line.
    pub fn dynamics(&self) -> (dynamics: Dynamics)
        ensures
            dynamics == if self.follows_updates() {
                Dynamics::Yes
            } else {
                Dynamics::No
            },
    {
        match self {
            CliTask::CeAdD | CliTask::CeCoD | CliTask::CeStD | CliTask::EeAdD | CliTask::EeCoD
            | CliTask::EeStD | CliTask::SeAdD | CliTask::SeCoD | CliTask::SeStD => Dynamics::Yes,
            _ => Dynamics::No,
        }
    }
}

} // verus!
