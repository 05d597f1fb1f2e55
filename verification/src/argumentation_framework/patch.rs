//! Updates to a framework.
use vstd::prelude::*;

use crate::argumentation_framework::parser::{self, parse_apxm_tgfm_patch_line};
use crate::argumentation_framework::symbols::{
    Argument, ArgumentView, Attack, AttackView, State, Target, TargetView,
};
use crate::error::{Error, ErrorView};
use crate::framework::Failure;

verus! {

/// An update to the framework.
#[derive(Debug, Clone, PartialEq, Eq)]
pub enum Patch {
    /// Switch this argument on.
    EnableArgument(Argument),
    /// Switch this argument off.
    DisableArgument(Argument),
    /// Switch this attack on.
    EnableAttack(Attack),
    /// Switch this attack off.
    DisableAttack(Attack),
}

/// A [`Patch`] as a plain value.
pub enum PatchView {
    EnableArgument(ArgumentView),
    DisableArgument(ArgumentView),
    EnableAttack(AttackView),
    DisableAttack(AttackView),
}

impl View for Patch {
    type V = PatchView;

    open spec fn view(&self) -> PatchView {
        match self {
            Patch::EnableArgument(argument) => PatchView::EnableArgument(argument@),
            Patch::DisableArgument(argument) => PatchView::DisableArgument(argument@),
            Patch::EnableAttack(attack) => PatchView::EnableAttack(attack@),
            Patch::DisableAttack(attack) => PatchView::DisableAttack(attack@),
        }
    }
}

/// The patches as plain values.
pub open spec fn patch_views(patches: Seq<Patch>) -> Seq<PatchView> {
    Seq::new(patches.len(), |i: int| patches[i]@)
}

impl Patch {
    /// Parse a full update line, in the explicit or in the terse format.
    pub fn parse_line(input: &str) -> (outcome: Result<Vec<Self>, Error>)
        ensures
            match outcome {
                Ok(patches) => parser::patches_of(input@) == Ok::<_, Failure>(
                    patch_views(patches@),
                ),
                Err(error) => error@ matches ErrorView::Parser(failure) && parser::patches_of(input@)
                    == Err::<Seq<PatchView>, _>(failure),
            },
    {
        match parse_apxm_tgfm_patch_line(input) {
            Ok(patches) => Ok(patches),
            Err(error) => Err(Error::Parser(error)),
        }
    }
}

impl Patch {
    /// What the patch is about.
    pub fn target(&self) -> (target: Target)
        ensures
            target@ == self@.target(),
    {
        match self {
            Patch::EnableArgument(argument) | Patch::DisableArgument(argument) => argument.target(),
            Patch::EnableAttack(attack) | Patch::DisableAttack(attack) => attack.target(),
        }
    }

    /// The status that the patch asks for.
    pub fn state(&self) -> (state: State)
        ensures
            state == self@.state(),
    {
        match self {
            Patch::EnableArgument(_) | Patch::EnableAttack(_) => State::Alive,
            Patch::DisableArgument(_) | Patch::DisableAttack(_) => State::Dead,
        }
    }
}

impl PatchView {
    /// What the patch is about.
    pub open spec fn target(self) -> TargetView {
        match self {
            PatchView::EnableArgument(argument) | PatchView::DisableArgument(argument) => {
                TargetView::Argument { id: argument.id }
            },
            PatchView::EnableAttack(attack) | PatchView::DisableAttack(attack) => {
                TargetView::Attack { from: attack.from, to: attack.to }
            },
        }
    }

    /// The status that the patch asks for.
    pub open spec fn state(self) -> State {
        match self {
            PatchView::EnableArgument(_) | PatchView::EnableAttack(_) => State::Alive,
            PatchView::DisableArgument(_) | PatchView::DisableAttack(_) => State::Dead,
        }
    }
}

} // verus!
