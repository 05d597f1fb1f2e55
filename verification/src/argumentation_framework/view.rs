//! A framework as a plain value, and what an update makes of it.
use vstd::prelude::*;

use crate::argumentation_framework::backend::{assignment, setup, CommandView};
use crate::argumentation_framework::patch::PatchView;
use crate::argumentation_framework::symbols::{ArgumentView, AttackView, State, TargetView};
use crate::error::ErrorView;
use crate::framework::Failure;

verus! {

/// A framework as a plain value: every argument and every attack with its
/// status, the number of the revision, whether the solver is at hand, the
/// commands that the solver has not been given yet, and all commands that
/// were ever made out for it, those included.
pub struct FrameworkView {
    pub args: Seq<(ArgumentView, State)>,
    pub attacks: Seq<(AttackView, State)>,
    pub revision: nat,
    pub ready: bool,
    pub pending: Seq<CommandView>,
    pub issued: Seq<CommandView>,
}

/// The truth value that the solver gives the atom of `target` once it has
/// performed the commands: the one that the last command about the atom
/// assigns. An atom that no command is about is false.
pub open spec fn truth_after(commands: Seq<CommandView>, target: TargetView) -> bool
    decreases commands.len(),
{
    if commands.len() == 0 {
        false
    } else {
        match commands.last() {
            CommandView::AssignExternal { target: assigned, truth } => if assigned == target {
                truth
            } else {
                truth_after(commands.drop_last(), target)
            },
            _ => truth_after(commands.drop_last(), target),
        }
    }
}

/// Whether no two arguments have the same name.
pub open spec fn distinct_arguments(args: Seq<ArgumentView>) -> bool {
    forall|i: int, j: int|
        0 <= i < j < args.len() ==> (#[trigger] args[i]).id != (#[trigger] args[j]).id
}

/// Whether no two attacks have the same two ends.
pub open spec fn distinct_attacks(attacks: Seq<AttackView>) -> bool {
    forall|i: int, j: int|
        0 <= i < j < attacks.len() ==> !((#[trigger] attacks[i]).from == (
        #[trigger] attacks[j]).from && attacks[i].to == attacks[j].to)
}

impl FrameworkView {
    /// The arguments without their status.
    pub open spec fn arguments(self) -> Seq<ArgumentView> {
        Seq::new(self.args.len(), |i: int| self.args[i].0)
    }

    /// The attacks without their status.
    pub open spec fn edges(self) -> Seq<AttackView> {
        Seq::new(self.attacks.len(), |i: int| self.attacks[i].0)
    }

    /// What always holds of a framework: no argument and no attack occurs
    /// twice, whatever is not optional is alive, and the solver, once it has
    /// performed every command that was made out for it, holds the atom of
    /// an optional element true exactly if the element is alive.
    pub open spec fn wf(self) -> bool {
        &&& distinct_arguments(self.arguments())
        &&& distinct_attacks(self.edges())
        &&& forall|i: int|
            0 <= i < self.args.len() && !(#[trigger] self.args[i]).0.optional ==> self.args[i].1
                == State::Alive
        &&& forall|i: int|
            0 <= i < self.attacks.len() && !(#[trigger] self.attacks[i]).0.optional
                ==> self.attacks[i].1 == State::Alive
        &&& forall|i: int|
            0 <= i < self.args.len() && (#[trigger] self.args[i]).0.optional ==> truth_after(
                self.issued,
                TargetView::Argument { id: self.args[i].0.id },
            ) == (self.args[i].1 == State::Alive)
        &&& forall|i: int|
            0 <= i < self.attacks.len() && (#[trigger] self.attacks[i]).0.optional ==> truth_after(
                self.issued,
                TargetView::Attack { from: self.attacks[i].0.from, to: self.attacks[i].0.to },
            ) == (self.attacks[i].1 == State::Alive)
    }

    /// Whether the framework holds an argument named `id`.
    pub open spec fn has_argument(self, id: Seq<char>) -> bool {
        exists|i: int| 0 <= i < self.args.len() && (#[trigger] self.args[i]).0.id == id
    }

    /// Whether the framework holds an attack from `from` to `to`.
    pub open spec fn has_attack(self, from: Seq<char>, to: Seq<char>) -> bool {
        exists|i: int|
            0 <= i < self.attacks.len() && (#[trigger] self.attacks[i]).0.from == from
                && self.attacks[i].0.to == to
    }

    /// The place of the argument named `id`.
    pub open spec fn argument_index(self, id: Seq<char>) -> int {
        choose|i: int| 0 <= i < self.args.len() && (#[trigger] self.args[i]).0.id == id
    }

    /// The place of the attack from `from` to `to`.
    pub open spec fn attack_index(self, from: Seq<char>, to: Seq<char>) -> int {
        choose|i: int|
            0 <= i < self.attacks.len() && (#[trigger] self.attacks[i]).0.from == from
                && self.attacks[i].0.to == to
    }

    /// The framework with `target` set to `state`, and the solver told so.
    /// An element that the framework does not hold cannot be switched, nor
    /// one that is not optional. Switching an element to the status that it
    /// has leaves every status as it is.
    pub open spec fn switch(self, target: TargetView, state: State) -> Result<
        FrameworkView,
        ErrorView,
    > {
        match target {
            TargetView::Argument { id } => {
                let i = self.argument_index(id);
                if !self.has_argument(id) {
                    Err(ErrorView::UnknownElement(target))
                } else if !self.args[i].0.optional {
                    Err(ErrorView::IllegalTransition(target))
                } else {
                    Ok(
                        FrameworkView {
                            args: self.args.update(i, (self.args[i].0, state)),
                            pending: self.pending.push(assignment(target, state == State::Alive)),
                            issued: self.issued.push(assignment(target, state == State::Alive)),
                            ..self
                        },
                    )
                }
            },
            TargetView::Attack { from, to } => {
                let i = self.attack_index(from, to);
                if !self.has_attack(from, to) {
                    Err(ErrorView::UnknownElement(target))
                } else if !self.attacks[i].0.optional {
                    Err(ErrorView::IllegalTransition(target))
                } else {
                    Ok(
                        FrameworkView {
                            attacks: self.attacks.update(i, (self.attacks[i].0, state)),
                            pending: self.pending.push(assignment(target, state == State::Alive)),
                            issued: self.issued.push(assignment(target, state == State::Alive)),
                            ..self
                        },
                    )
                }
            },
        }
    }

    /// The framework after the patches, one after the other; the error of
    /// the first patch that cannot be applied.
    pub open spec fn switch_all(self, patches: Seq<PatchView>) -> Result<FrameworkView, ErrorView>
        decreases patches.len(),
    {
        if patches.len() == 0 {
            Ok(self)
        } else {
            match self.switch(patches[0].target(), patches[0].state()) {
                Ok(next) => next.switch_all(patches.drop_first()),
                Err(error) => Err(error),
            }
        }
    }

    /// The framework at its next revision.
    pub open spec fn next_revision(self) -> FrameworkView {
        FrameworkView { revision: self.revision + 1, ..self }
    }

    /// The framework after an update line that holds the given patches. The
    /// line is applied as a whole, as one new revision, or not at all.
    pub open spec fn after(self, patches: Seq<PatchView>) -> Result<FrameworkView, ErrorView> {
        if !self.ready {
            Err(ErrorView::EngineNotInitialized)
        } else {
            match self.switch_all(patches) {
                Ok(next) => Ok(next.next_revision()),
                Err(error) => Err(error),
            }
        }
    }

    /// The framework while an enumeration is under way: the solver is away
    /// and has taken the pending commands with it. No enumeration begins
    /// while the solver is away.
    pub open spec fn begun(self) -> Result<FrameworkView, ErrorView> {
        if self.ready {
            Ok(FrameworkView { ready: false, pending: Seq::empty(), ..self })
        } else {
            Err(ErrorView::EngineNotInitialized)
        }
    }

    /// The framework once an enumeration has come back with the commands
    /// `orders` still not handed out: the solver is at hand again.
    pub open spec fn taken_back(self, orders: Seq<CommandView>) -> FrameworkView {
        FrameworkView { ready: true, pending: orders + self.pending, ..self }
    }

    /// The arguments that are alive, in order.
    pub open spec fn alive_arguments(self) -> Seq<ArgumentView> {
        alive(self.args)
    }

    /// The attacks that are alive, in order.
    pub open spec fn alive_attacks(self) -> Seq<AttackView> {
        alive(self.attacks)
    }
}

/// The elements that are alive, in order.
pub open spec fn alive<T>(entries: Seq<(T, State)>) -> Seq<T>
    decreases entries.len(),
{
    if entries.len() == 0 {
        Seq::empty()
    } else if entries.last().1 == State::Alive {
        alive(entries.drop_last()).push(entries.last().0)
    } else {
        alive(entries.drop_last())
    }
}

/// The first place at which an argument stands whose name stood at an
/// earlier place already.
pub open spec fn first_repeated_argument(args: Seq<ArgumentView>, j: int) -> bool {
    &&& 0 <= j < args.len()
    &&& exists|i: int| 0 <= i < j && (#[trigger] args[i]).id == args[j].id
    &&& distinct_arguments(args.take(j))
}

/// The first place at which an attack stands whose two ends stood at an
/// earlier place already.
pub open spec fn first_repeated_attack(attacks: Seq<AttackView>, j: int) -> bool {
    &&& 0 <= j < attacks.len()
    &&& exists|i: int|
        0 <= i < j && (#[trigger] attacks[i]).from == attacks[j].from && attacks[i].to
            == attacks[j].to
    &&& distinct_attacks(attacks.take(j))
}

/// The framework that the given arguments and attacks make at revision
/// zero: every element starts dead exactly if it is optional, the solver is
/// at hand and has its setup before it. Where an argument or an attack
/// occurs twice there is no framework: the error names the first repetition,
/// that of an argument if there is one.
pub open spec fn loaded(args: Seq<ArgumentView>, attacks: Seq<AttackView>, base: Seq<char>) -> Result<
    FrameworkView,
    ErrorView,
> {
    if !distinct_arguments(args) {
        let j = choose|j: int| first_repeated_argument(args, j);
        Err(ErrorView::Parser(Failure::DuplicateArgument { arg_id: args[j].id }))
    } else if !distinct_attacks(attacks) {
        let j = choose|j: int| first_repeated_attack(attacks, j);
        Err(ErrorView::Parser(Failure::DuplicateAttack { from: attacks[j].from, to: attacks[j].to }))
    } else {
        Ok(
            FrameworkView {
                args: Seq::new(args.len(), |i: int| (args[i], State::initial(args[i].optional))),
                attacks: Seq::new(
                    attacks.len(),
                    |i: int| (attacks[i], State::initial(attacks[i].optional)),
                ),
                revision: 0,
                ready: true,
                pending: setup(args, attacks, base),
                issued: setup(args, attacks, base),
            },
        )
    }
}

/// The arguments without their optional marks.
pub open spec fn unmarked_arguments(args: Seq<ArgumentView>) -> Seq<ArgumentView> {
    Seq::new(args.len(), |i: int| ArgumentView { id: args[i].id, optional: false })
}

/// The attacks without their optional marks.
pub open spec fn unmarked_attacks(attacks: Seq<AttackView>) -> Seq<AttackView> {
    Seq::new(
        attacks.len(),
        |i: int| AttackView { from: attacks[i].from, to: attacks[i].to, optional: false },
    )
}

/// Assigning `target` gives it the assigned truth and leaves every other
/// atom as it was.
pub proof fn lemma_truth_after_push(
    commands: Seq<CommandView>,
    target: TargetView,
    truth: bool,
    other: TargetView,
)
    ensures
        truth_after(commands.push(assignment(target, truth)), target) == truth,
        other != target ==> truth_after(commands.push(assignment(target, truth)), other)
            == truth_after(commands, other),
{
    let grown = commands.push(assignment(target, truth));
    assert(grown.last() == assignment(target, truth));
    assert(grown.drop_last() == commands);
}

/// The commands that set the solver up give no atom a truth value: every
/// optional element starts out false.
pub proof fn lemma_setup_assigns_nothing(
    args: Seq<ArgumentView>,
    attacks: Seq<AttackView>,
    base: Seq<char>,
)
    ensures
        forall|target: TargetView| !truth_after(setup(args, attacks, base), target),
{
    let commands = setup(args, attacks, base);
    assert forall|target: TargetView| !truth_after(commands, target) by {
        reveal_with_fuel(truth_after, 5);
        assert(commands.len() == 4);
        let three = commands.drop_last();
        let two = three.drop_last();
        let one = two.drop_last();
        let none = one.drop_last();
        assert(none.len() == 0);
    }
}

/// There is one first repetition of an argument at most.
pub proof fn lemma_first_repeated_argument_unique(args: Seq<ArgumentView>, j: int, k: int)
    requires
        first_repeated_argument(args, j),
        first_repeated_argument(args, k),
    ensures
        j == k,
{
    if j < k {
        let i = choose|i: int| 0 <= i < j && (#[trigger] args[i]).id == args[j].id;
        assert(args.take(k)[i].id == args.take(k)[j].id);
    } else if k < j {
        let i = choose|i: int| 0 <= i < k && (#[trigger] args[i]).id == args[k].id;
        assert(args.take(j)[i].id == args.take(j)[k].id);
    }
}

/// There is one first repetition of an attack at most.
pub proof fn lemma_first_repeated_attack_unique(attacks: Seq<AttackView>, j: int, k: int)
    requires
        first_repeated_attack(attacks, j),
        first_repeated_attack(attacks, k),
    ensures
        j == k,
{
    if j < k {
        let i = choose|i: int|
            0 <= i < j && (#[trigger] attacks[i]).from == attacks[j].from && attacks[i].to
                == attacks[j].to;
        assert(attacks.take(k)[i].from == attacks.take(k)[j].from);
    } else if k < j {
        let i = choose|i: int|
            0 <= i < k && (#[trigger] attacks[i]).from == attacks[k].from && attacks[i].to
                == attacks[k].to;
        assert(attacks.take(j)[i].from == attacks.take(j)[k].from);
    }
}

} // verus!
