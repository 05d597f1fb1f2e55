//! Dung's argumentation frameworks: arguments that attack one another.
pub mod backend;
pub mod extension;
pub mod iter;
pub mod laws;
pub mod parser;
pub mod patch;
pub mod semantics;
pub mod symbols;
pub mod view;

use core::marker::PhantomData;
use vstd::prelude::*;

use crate::argumentation_framework::backend::{
    assignment, command_views, initialize_backend, Command, CommandView,
};
use crate::argumentation_framework::extension::Extension;
pub use crate::argumentation_framework::iter::{
    Control, Counter, ExtensionIter, IterState, SolveEvent, SolveHandle,
};
use crate::argumentation_framework::parser::{parse_apx_tgf, parse_apxm_tgfm_patch_line};
pub use crate::argumentation_framework::patch::{patch_views, Patch, PatchView};
use crate::argumentation_framework::semantics::{accepts, graph, ArgumentationFrameworkSemantic};
use crate::argumentation_framework::symbols::{
    argument_views, attack_views, Argument, ArgumentView, Attack, AttackView, State, Target,
    TargetView,
};
pub use crate::argumentation_framework::view::{
    alive, distinct_arguments, distinct_attacks, first_repeated_argument, first_repeated_attack,
    lemma_first_repeated_argument_unique, lemma_first_repeated_attack_unique,
    lemma_setup_assigns_nothing, lemma_truth_after_push, loaded, truth_after, unmarked_arguments,
    unmarked_attacks, FrameworkView,
};
use crate::error::{Error, ErrorView};
use crate::framework::ParserError;
use crate::semantics::Semantics;

verus! {

/// Dung's argumentation framework: a graph of arguments and attacks, some
/// of them optional, under the acceptance criterion `S`.
///
/// The framework is the single source of truth for what exists and what is
/// alive. Every update line that is applied starts a new revision.
pub struct ArgumentationFramework<S: ArgumentationFrameworkSemantic> {
    args: Vec<Argument>,
    arg_states: Vec<State>,
    attacks: Vec<Attack>,
    attack_states: Vec<State>,
    revision: u64,
    clingo_ctl: Option<Control>,
    pending: Vec<Command>,
    issued: Ghost<Seq<CommandView>>,
    _semantics: PhantomData<S>,
}

/// The arguments with their status, as plain values.
pub open spec fn argument_entries(args: Seq<Argument>, states: Seq<State>) -> Seq<
    (ArgumentView, State),
> {
    Seq::new(args.len(), |i: int| (args[i]@, states[i]))
}

/// The attacks with their status, as plain values.
pub open spec fn attack_entries(attacks: Seq<Attack>, states: Seq<State>) -> Seq<(AttackView, State)> {
    Seq::new(attacks.len(), |i: int| (attacks[i]@, states[i]))
}

impl<S: ArgumentationFrameworkSemantic> View for ArgumentationFramework<S> {
    type V = FrameworkView;

    closed spec fn view(&self) -> FrameworkView {
        FrameworkView {
            args: argument_entries(self.args@, self.arg_states@),
            attacks: attack_entries(self.attacks@, self.attack_states@),
            revision: self.revision as nat,
            ready: self.clingo_ctl is Some,
            pending: command_views(self.pending@),
            issued: self.issued@,
        }
    }
}

fn find_argument(args: &Vec<Argument>, id: &String) -> (found: Option<usize>)
    ensures
        match found {
            Some(i) => i < args.len() && args@[i as int].id@ == id@,
            None => forall|j: int| 0 <= j < args.len() ==> (#[trigger] args@[j]).id@ != id@,
        },
{
    let mut i: usize = 0;
    while i < args.len()
        invariant
            i <= args.len(),
            forall|j: int| 0 <= j < i ==> (#[trigger] args@[j]).id@ != id@,
        decreases args.len() - i,
    {
        if args[i].id == *id {
            return Some(i);
        }
        i += 1;
    }
    None
}

fn find_attack(attacks: &Vec<Attack>, from: &String, to: &String) -> (found: Option<usize>)
    ensures
        match found {
            Some(i) => i < attacks.len() && attacks@[i as int].from@ == from@ && attacks@[i as int].to@
                == to@,
            None => forall|j: int|
                0 <= j < attacks.len() ==> !((#[trigger] attacks@[j]).from@ == from@
                    && attacks@[j].to@ == to@),
        },
{
    let mut i: usize = 0;
    while i < attacks.len()
        invariant
            i <= attacks.len(),
            forall|j: int|
                0 <= j < i ==> !((#[trigger] attacks@[j]).from@ == from@ && attacks@[j].to@ == to@),
        decreases attacks.len() - i,
    {
        if attacks[i].from == *from && attacks[i].to == *to {
            return Some(i);
        }
        i += 1;
    }
    None
}

/// The framework that the parts make.
spec fn composed(
    args: Seq<Argument>,
    arg_states: Seq<State>,
    attacks: Seq<Attack>,
    attack_states: Seq<State>,
    revision: nat,
    ready: bool,
    pending: Seq<Command>,
    issued: Seq<CommandView>,
) -> FrameworkView {
    FrameworkView {
        args: argument_entries(args, arg_states),
        attacks: attack_entries(attacks, attack_states),
        revision,
        ready,
        pending: command_views(pending),
        issued,
    }
}

/// Switches `target` in the given parts of a framework.
fn switch(
    args: &Vec<Argument>,
    attacks: &Vec<Attack>,
    arg_states: &mut Vec<State>,
    attack_states: &mut Vec<State>,
    pending: &mut Vec<Command>,
    target: Target,
    state: State,
    Ghost(revision): Ghost<nat>,
    Ghost(ready): Ghost<bool>,
    Ghost(issued): Ghost<Seq<CommandView>>,
) -> (outcome: Result<(), Error>)
    requires
        old(arg_states).len() == args.len(),
        old(attack_states).len() == attacks.len(),
        composed(
            args@,
            old(arg_states)@,
            attacks@,
            old(attack_states)@,
            revision,
            ready,
            old(pending)@,
            issued,
        ).wf(),
    ensures
        final(arg_states).len() == args.len(),
        final(attack_states).len() == attacks.len(),
        outcome is Ok ==> final(pending)@.len() == old(pending)@.len() + 1,
        outcome is Ok ==> final(pending)@.drop_last() == old(pending)@,
        match outcome {
            Ok(()) => {
                let after = composed(
                    args@,
                    final(arg_states)@,
                    attacks@,
                    final(attack_states)@,
                    revision,
                    ready,
                    final(pending)@,
                    issued.push(assignment(target@, state == State::Alive)),
                );
                &&& after.wf()
                &&& composed(
                    args@,
                    old(arg_states)@,
                    attacks@,
                    old(attack_states)@,
                    revision,
                    ready,
                    old(pending)@,
                    issued,
                ).switch(target@, state) == Ok::<_, ErrorView>(after)
            },
            Err(error) => {
                &&& composed(
                    args@,
                    old(arg_states)@,
                    attacks@,
                    old(attack_states)@,
                    revision,
                    ready,
                    old(pending)@,
                    issued,
                ).switch(target@, state) == Err::<FrameworkView, _>(error@)
                &&& final(arg_states)@ == old(arg_states)@
                &&& final(attack_states)@ == old(attack_states)@
                &&& final(pending)@ == old(pending)@
            },
        },
{
    let ghost before = composed(
        args@,
        arg_states@,
        attacks@,
        attack_states@,
        revision,
        ready,
        pending@,
        issued,
    );
    let ghost grown = issued.push(assignment(target@, state == State::Alive));
    match &target {
        Target::Argument { id } => {
            match find_argument(args, id) {
                None => {
                    proof {
                        assert(!before.has_argument(id@)) by {
                            if before.has_argument(id@) {
                                let i = before.argument_index(id@);
                                assert(args@[i].id@ == id@);
                            }
                        }
                    }
                    Err(Error::UnknownElement(target))
                },
                Some(i) => {
                    proof {
                        assert(before.args[i as int].0.id == id@);
                        let chosen = before.argument_index(id@);
                        assert(before.arguments()[chosen].id == before.arguments()[i as int].id);
                        assert(chosen == i);
                    }
                    if !args[i].optional {
                        Err(Error::IllegalTransition(target))
                    } else {
                        arg_states.set(i, state);
                        pending.push(
                            Command::AssignExternal { target, truth: state == State::Alive },
                        );
                        proof {
                            let after = composed(
                                args@,
                                arg_states@,
                                attacks@,
                                attack_states@,
                                revision,
                                ready,
                                pending@,
                                grown,
                            );
                            assert(after.args =~= before.args.update(
                                i as int,
                                (before.args[i as int].0, state),
                            ));
                            assert(after.attacks =~= before.attacks);
                            assert(after.pending =~= before.pending.push(
                                assignment(target@, state == State::Alive),
                            ));
                            assert(after.arguments() =~= before.arguments());
                            assert(after.edges() =~= before.edges());
                            assert forall|k: int|
                                0 <= k < after.args.len() && (
                                #[trigger] after.args[k]).0.optional implies truth_after(
                                grown,
                                TargetView::Argument { id: after.args[k].0.id },
                            ) == (after.args[k].1 == State::Alive) by {
                                lemma_truth_after_push(
                                    issued,
                                    target@,
                                    state == State::Alive,
                                    TargetView::Argument { id: after.args[k].0.id },
                                );
                                if k != i {
                                    assert(before.arguments()[k].id != before.arguments()[i as int].id);
                                    assert(before.args[k].0.optional);
                                }
                            }
                            assert forall|k: int|
                                0 <= k < after.attacks.len() && (
                                #[trigger] after.attacks[k]).0.optional implies truth_after(
                                grown,
                                TargetView::Attack {
                                    from: after.attacks[k].0.from,
                                    to: after.attacks[k].0.to,
                                },
                            ) == (after.attacks[k].1 == State::Alive) by {
                                lemma_truth_after_push(
                                    issued,
                                    target@,
                                    state == State::Alive,
                                    TargetView::Attack {
                                        from: after.attacks[k].0.from,
                                        to: after.attacks[k].0.to,
                                    },
                                );
                                assert(before.attacks[k].0.optional);
                            }
                        }
                        Ok(())
                    }
                },
            }
        },
        Target::Attack { from, to } => {
            match find_attack(attacks, from, to) {
                None => {
                    proof {
                        assert(!before.has_attack(from@, to@)) by {
                            if before.has_attack(from@, to@) {
                                let i = before.attack_index(from@, to@);
                                assert(attacks@[i].from@ == from@);
                            }
                        }
                    }
                    Err(Error::UnknownElement(target))
                },
                Some(i) => {
                    proof {
                        assert(before.attacks[i as int].0.from == from@);
                        let chosen = before.attack_index(from@, to@);
                        assert(before.edges()[chosen].from == before.edges()[i as int].from);
                        assert(before.edges()[chosen].to == before.edges()[i as int].to);
                        assert(chosen == i);
                    }
                    if !attacks[i].optional {
                        Err(Error::IllegalTransition(target))
                    } else {
                        attack_states.set(i, state);
                        pending.push(
                            Command::AssignExternal { target, truth: state == State::Alive },
                        );
                        proof {
                            let after = composed(
                                args@,
                                arg_states@,
                                attacks@,
                                attack_states@,
                                revision,
                                ready,
                                pending@,
                                grown,
                            );
                            assert(after.attacks =~= before.attacks.update(
                                i as int,
                                (before.attacks[i as int].0, state),
                            ));
                            assert(after.args =~= before.args);
                            assert(after.pending =~= before.pending.push(
                                assignment(target@, state == State::Alive),
                            ));
                            assert(after.arguments() =~= before.arguments());
                            assert(after.edges() =~= before.edges());
                            assert forall|k: int|
                                0 <= k < after.args.len() && (
                                #[trigger] after.args[k]).0.optional implies truth_after(
                                grown,
                                TargetView::Argument { id: after.args[k].0.id },
                            ) == (after.args[k].1 == State::Alive) by {
                                lemma_truth_after_push(
                                    issued,
                                    target@,
                                    state == State::Alive,
                                    TargetView::Argument { id: after.args[k].0.id },
                                );
                                assert(before.args[k].0.optional);
                            }
                            assert forall|k: int|
                                0 <= k < after.attacks.len() && (
                                #[trigger] after.attacks[k]).0.optional implies truth_after(
                                grown,
                                TargetView::Attack {
                                    from: after.attacks[k].0.from,
                                    to: after.attacks[k].0.to,
                                },
                            ) == (after.attacks[k].1 == State::Alive) by {
                                lemma_truth_after_push(
                                    issued,
                                    target@,
                                    state == State::Alive,
                                    TargetView::Attack {
                                        from: after.attacks[k].0.from,
                                        to: after.attacks[k].0.to,
                                    },
                                );
                                if k != i {
                                    assert(!(before.edges()[k].from == before.edges()[i as int].from
                                        && before.edges()[k].to == before.edges()[i as int].to));
                                    assert(before.attacks[k].0.optional);
                                }
                            }
                        }
                        Ok(())
                    }
                },
            }
        },
    }
}

fn copy_states(states: &Vec<State>) -> (copy: Vec<State>)
    ensures
        copy@ == states@,
{
    let mut copy: Vec<State> = Vec::new();
    let mut i: usize = 0;
    while i < states.len()
        invariant
            i <= states.len(),
            copy@ == states@.take(i as int),
        decreases states.len() - i,
    {
        copy.push(states[i]);
        proof {
            assert(states@.take(i + 1) == states@.take(i as int).push(states@[i as int]));
        }
        i += 1;
    }
    proof {
        assert(states@.take(states.len() as int) == states@);
    }
    copy
}

/// The place of the first argument whose name stood at an earlier place
/// already, if there is one.
fn repeated_argument(args: &Vec<Argument>) -> (found: Option<usize>)
    ensures
        match found {
            Some(j) => first_repeated_argument(argument_views(args@), j as int),
            None => distinct_arguments(argument_views(args@)),
        },
{
    let ghost views = argument_views(args@);
    let mut j: usize = 0;
    while j < args.len()
        invariant
            j <= args.len(),
            views == argument_views(args@),
            distinct_arguments(views.take(j as int)),
        decreases args.len() - j,
    {
        let mut i: usize = 0;
        while i < j
            invariant
                i <= j < args.len(),
                views == argument_views(args@),
                distinct_arguments(views.take(j as int)),
                forall|k: int| 0 <= k < i ==> (#[trigger] views[k]).id != views[j as int].id,
            decreases j - i,
        {
            if args[i].id == args[j].id {
                proof {
                    assert(views[i as int].id == views[j as int].id);
                }
                return Some(j);
            }
            i += 1;
        }
        proof {
            let next = views.take(j + 1);
            assert forall|a: int, b: int| 0 <= a < b < next.len() implies (#[trigger] next[a]).id != (
            #[trigger] next[b]).id by {
                if b < j {
                    assert(views.take(j as int)[a].id != views.take(j as int)[b].id);
                } else {
                    assert(views[a].id != views[j as int].id);
                }
            }
        }
        j += 1;
    }
    proof {
        assert(views.take(args.len() as int) == views);
    }
    None
}

/// The place of the first attack whose two ends stood at an earlier place
/// already, if there is one.
fn repeated_attack(attacks: &Vec<Attack>) -> (found: Option<usize>)
    ensures
        match found {
            Some(j) => first_repeated_attack(attack_views(attacks@), j as int),
            None => distinct_attacks(attack_views(attacks@)),
        },
{
    let ghost views = attack_views(attacks@);
    let mut j: usize = 0;
    while j < attacks.len()
        invariant
            j <= attacks.len(),
            views == attack_views(attacks@),
            distinct_attacks(views.take(j as int)),
        decreases attacks.len() - j,
    {
        let mut i: usize = 0;
        while i < j
            invariant
                i <= j < attacks.len(),
                views == attack_views(attacks@),
                distinct_attacks(views.take(j as int)),
                forall|k: int|
                    0 <= k < i ==> !((#[trigger] views[k]).from == views[j as int].from
                        && views[k].to == views[j as int].to),
            decreases j - i,
        {
            if attacks[i].from == attacks[j].from && attacks[i].to == attacks[j].to {
                proof {
                    assert(views[i as int].from == views[j as int].from);
                }
                return Some(j);
            }
            i += 1;
        }
        proof {
            let next = views.take(j + 1);
            assert forall|a: int, b: int| 0 <= a < b < next.len() implies !((#[trigger] next[a]).from
                == (#[trigger] next[b]).from && next[a].to == next[b].to) by {
                if b < j {
                    let front = views.take(j as int);
                    assert(!(front[a].from == front[b].from && front[a].to == front[b].to));
                } else {
                    assert(!(views[a].from == views[j as int].from && views[a].to
                        == views[j as int].to));
                }
            }
        }
        j += 1;
    }
    proof {
        assert(views.take(attacks.len() as int) == views);
    }
    None
}

/// The entries as plain values.
pub open spec fn argument_entry_views(entries: Seq<(Argument, State)>) -> Seq<(ArgumentView, State)> {
    Seq::new(entries.len(), |i: int| (entries[i].0@, entries[i].1))
}

/// The entries as plain values.
pub open spec fn attack_entry_views(entries: Seq<(Attack, State)>) -> Seq<(AttackView, State)> {
    Seq::new(entries.len(), |i: int| (entries[i].0@, entries[i].1))
}

impl<S: ArgumentationFrameworkSemantic> ArgumentationFramework<S> {
    /// Every element has its status.
    pub closed spec fn inv(&self) -> bool {
        &&& self.arg_states@.len() == self.args@.len()
        &&& self.attack_states@.len() == self.attacks@.len()
    }

    /// What always holds of a framework.
    pub open spec fn wf(&self) -> bool {
        self.inv() && self@.wf()
    }

    /// Builds the framework at revision zero from its arguments and
    /// attacks. Every optional element starts dead, every other alive.
    pub fn load(args: Vec<Argument>, attacks: Vec<Attack>) -> (outcome: Result<Self, Error>)
        ensures
            match outcome {
                Ok(framework) => framework.wf() && loaded(
                    argument_views(args@),
                    attack_views(attacks@),
                    S::program(),
                ) == Ok::<_, ErrorView>(framework@),
                Err(error) => loaded(argument_views(args@), attack_views(attacks@), S::program())
                    == Err::<FrameworkView, _>(error@),
            },
    {
        let ghost arg_views = argument_views(args@);
        let ghost attack_views = attack_views(attacks@);
        match repeated_argument(&args) {
            Some(j) => {
                proof {
                    let chosen = choose|k: int| first_repeated_argument(arg_views, k);
                    lemma_first_repeated_argument_unique(arg_views, j as int, chosen);
                    let i = choose|i: int|
                        0 <= i < j && (#[trigger] arg_views[i]).id == arg_views[j as int].id;
                    assert(!distinct_arguments(arg_views));
                }
                return Err(
                    Error::Parser(ParserError::DuplicateArgument { arg_id: args[j].id.clone() }),
                );
            },
            None => {},
        }
        match repeated_attack(&attacks) {
            Some(j) => {
                proof {
                    let chosen = choose|k: int| first_repeated_attack(attack_views, k);
                    lemma_first_repeated_attack_unique(attack_views, j as int, chosen);
                    let i = choose|i: int|
                        0 <= i < j && (#[trigger] attack_views[i]).from
                            == attack_views[j as int].from && attack_views[i].to
                            == attack_views[j as int].to;
                    assert(!distinct_attacks(attack_views));
                }
                return Err(
                    Error::Parser(
                        ParserError::DuplicateAttack {
                            from: attacks[j].from.clone(),
                            to: attacks[j].to.clone(),
                        },
                    ),
                );
            },
            None => {},
        }
        let mut arg_states: Vec<State> = Vec::new();
        let mut i: usize = 0;
        while i < args.len()
            invariant
                i <= args.len(),
                arg_states@.len() == i,
                forall|k: int|
                    0 <= k < i ==> arg_states@[k] == State::initial((#[trigger] args@[k]).optional),
            decreases args.len() - i,
        {
            arg_states.push(State::at_start(args[i].optional));
            i += 1;
        }
        let mut attack_states: Vec<State> = Vec::new();
        let mut j: usize = 0;
        while j < attacks.len()
            invariant
                j <= attacks.len(),
                attack_states@.len() == j,
                forall|k: int|
                    0 <= k < j ==> attack_states@[k] == State::initial(
                        (#[trigger] attacks@[k]).optional,
                    ),
            decreases attacks.len() - j,
        {
            attack_states.push(State::at_start(attacks[j].optional));
            j += 1;
        }
        let pending = initialize_backend::<S>(&args, &attacks);
        let framework = ArgumentationFramework {
            args,
            arg_states,
            attacks,
            attack_states,
            revision: 0,
            clingo_ctl: Some(Control::new()),
            issued: Ghost(command_views(pending@)),
            pending,
            _semantics: PhantomData,
        };
        proof {
            let view = framework@;
            let expected = loaded(arg_views, attack_views, S::program())->Ok_0;
            assert(view.args =~= expected.args);
            assert(view.attacks =~= expected.attacks);
            assert(view.arguments() =~= arg_views);
            assert(view.edges() =~= attack_views);
            lemma_setup_assigns_nothing(arg_views, attack_views, S::program());
        }
        Ok(framework)
    }

    /// Reads a framework, in the explicit or in the terse format, and
    /// builds it at revision zero.
    pub fn new(input: &str) -> (outcome: Result<Self, Error>)
        ensures
            match outcome {
                Ok(framework) => {
                    &&& framework.wf()
                    &&& parser::framework_of(input@) matches Ok(parsed)
                    &&& loaded(parsed.0, parsed.1, S::program()) == Ok::<_, ErrorView>(framework@)
                },
                Err(error) => match parser::framework_of(input@) {
                    Ok(parsed) => loaded(parsed.0, parsed.1, S::program()) == Err::<FrameworkView, _>(
                        error@,
                    ),
                    Err(failure) => error@ == ErrorView::Parser(failure),
                },
            },
    {
        match parse_apx_tgf(input) {
            Ok((args, attacks)) => Self::load(args, attacks),
            Err(error) => Err(Error::Parser(error)),
        }
    }

    /// The number of the revision: the number of update lines that were
    /// applied since the framework was built.
    pub fn revision(&self) -> (revision: u64)
        ensures
            revision == self@.revision,
    {
        self.revision
    }

    /// The solver, if it is at hand.
    fn assume_control(&self) -> (outcome: Result<&Control, Error>)
        ensures
            match outcome {
                Ok(_) => self@.ready,
                Err(error) => !self@.ready && error@ == ErrorView::EngineNotInitialized,
            },
    {
        match &self.clingo_ctl {
            Some(control) => Ok(control),
            None => Err(Error::EngineNotInitialized),
        }
    }

    /// Applies the patches as one update line.
    fn apply_all(&mut self, patches: &Vec<Patch>) -> (outcome: Result<(), Error>)
        requires
            old(self).wf(),
            old(self)@.revision < u64::MAX,
        ensures
            final(self).wf(),
            match outcome {
                Ok(()) => old(self)@.after(patch_views(patches@)) == Ok::<_, ErrorView>(
                    final(self)@,
                ),
                Err(error) => old(self)@.after(patch_views(patches@)) == Err::<FrameworkView, _>(
                    error@,
                ) && final(self)@ == old(self)@,
            },
    {
        match self.assume_control() {
            Ok(_) => {},
            Err(error) => {
                return Err(error);
            },
        }
        let mut arg_states = copy_states(&self.arg_states);
        let mut attack_states = copy_states(&self.attack_states);
        let queued = self.pending.len();
        let ghost all = patch_views(patches@);
        let ghost revision = self.revision as nat;
        let ghost mut issued = self.issued@;
        let mut k: usize = 0;
        proof {
            assert(all.skip(0) == all);
        }
        while k < patches.len()
            invariant
                k <= patches.len(),
                all == patch_views(patches@),
                revision == self.revision,
                revision < u64::MAX,
                old(self).wf(),
                old(self)@.ready,
                arg_states@.len() == self.args@.len(),
                attack_states@.len() == self.attacks@.len(),
                self.args == old(self).args,
                self.attacks == old(self).attacks,
                self.arg_states == old(self).arg_states,
                self.attack_states == old(self).attack_states,
                self.clingo_ctl == old(self).clingo_ctl,
                self.revision == old(self).revision,
                self.issued == old(self).issued,
                queued == old(self).pending@.len(),
                queued <= self.pending@.len(),
                self.pending@.take(queued as int) == old(self).pending@,
                composed(
                    self.args@,
                    arg_states@,
                    self.attacks@,
                    attack_states@,
                    revision,
                    true,
                    self.pending@,
                    issued,
                ).wf(),
                old(self)@.switch_all(all) == composed(
                    self.args@,
                    arg_states@,
                    self.attacks@,
                    attack_states@,
                    revision,
                    true,
                    self.pending@,
                    issued,
                ).switch_all(all.skip(k as int)),
            decreases patches.len() - k,
        {
            let ghost current = composed(
                self.args@,
                arg_states@,
                self.attacks@,
                attack_states@,
                revision,
                true,
                self.pending@,
                issued,
            );
            proof {
                let rest = all.skip(k as int);
                assert(rest.len() > 0);
                assert(rest[0] == patches@[k as int]@);
                assert(rest.drop_first() == all.skip(k + 1));
            }
            let ghost before = self.pending@;
            match switch(
                &self.args,
                &self.attacks,
                &mut arg_states,
                &mut attack_states,
                &mut self.pending,
                patches[k].target(),
                patches[k].state(),
                Ghost(revision),
                Ghost(true),
                Ghost(issued),
            ) {
                Ok(()) => {
                    proof {
                        issued = issued.push(
                            assignment(
                                patches@[k as int]@.target(),
                                patches@[k as int]@.state() == State::Alive,
                            ),
                        );
                        assert(self.pending@.take(queued as int) =~= before.take(queued as int)) by {
                            assert forall|n: int| 0 <= n < queued implies self.pending@[n]
                                == before[n] by {
                                assert(self.pending@.drop_last()[n] == self.pending@[n]);
                            }
                        }
                    }
                },
                Err(error) => {
                    self.pending.truncate(queued);
                    proof {
                        assert(self.pending@ =~= old(self).pending@);
                        assert(current.switch_all(all.skip(k as int)) == Err::<FrameworkView, _>(
                            error@,
                        ));
                    }
                    return Err(error);
                },
            }
            k += 1;
        }
        self.arg_states = arg_states;
        self.attack_states = attack_states;
        self.revision = self.revision + 1;
        self.issued = Ghost(issued);
        proof {
            assert(self@.arguments() =~= old(self)@.arguments());
            assert(self@.edges() =~= old(self)@.edges());
        }
        Ok(())
    }

    /// Applies one patch as an update line of its own: a new revision
    /// begins, or the framework stays as it is and the error says why.
    pub fn apply_patch(&mut self, patch: &Patch) -> (outcome: Result<(), Error>)
        requires
            old(self).wf(),
            old(self)@.revision < u64::MAX,
        ensures
            final(self).wf(),
            match outcome {
                Ok(()) => old(self)@.after(seq![patch@]) == Ok::<_, ErrorView>(final(self)@),
                Err(error) => old(self)@.after(seq![patch@]) == Err::<FrameworkView, _>(error@)
                    && final(self)@ == old(self)@,
            },
    {
        match patch {
            Patch::EnableArgument(argument) => self.enable_argument(argument),
            Patch::DisableArgument(argument) => self.disable_argument(argument),
            Patch::EnableAttack(attack) => self.enable_attack(attack),
            Patch::DisableAttack(attack) => self.disable_attack(attack),
        }
    }

    /// Switches an optional argument on, as an update line of its own.
    pub fn enable_argument(&mut self, argument: &Argument) -> (outcome: Result<(), Error>)
        requires
            old(self).wf(),
            old(self)@.revision < u64::MAX,
        ensures
            final(self).wf(),
            match outcome {
                Ok(()) => old(self)@.after(seq![PatchView::EnableArgument(argument@)]) == Ok::<
                    _,
                    ErrorView,
                >(final(self)@),
                Err(error) => old(self)@.after(seq![PatchView::EnableArgument(argument@)]) == Err::<
                    FrameworkView,
                    _,
                >(error@) && final(self)@ == old(self)@,
            },
    {
        let patches = vec![Patch::EnableArgument(argument.clone())];
        proof {
            assert(patch_views(patches@) =~= seq![PatchView::EnableArgument(argument@)]);
        }
        self.apply_all(&patches)
    }

    /// Switches an optional argument off, as an update line of its own.
    pub fn disable_argument(&mut self, argument: &Argument) -> (outcome: Result<(), Error>)
        requires
            old(self).wf(),
            old(self)@.revision < u64::MAX,
        ensures
            final(self).wf(),
            match outcome {
                Ok(()) => old(self)@.after(seq![PatchView::DisableArgument(argument@)]) == Ok::<
                    _,
                    ErrorView,
                >(final(self)@),
                Err(error) => old(self)@.after(seq![PatchView::DisableArgument(argument@)]) == Err::<
                    FrameworkView,
                    _,
                >(error@) && final(self)@ == old(self)@,
            },
    {
        let patches = vec![Patch::DisableArgument(argument.clone())];
        proof {
            assert(patch_views(patches@) =~= seq![PatchView::DisableArgument(argument@)]);
        }
        self.apply_all(&patches)
    }

    /// Switches an optional attack on, as an update line of its own.
    pub fn enable_attack(&mut self, attack: &Attack) -> (outcome: Result<(), Error>)
        requires
            old(self).wf(),
            old(self)@.revision < u64::MAX,
        ensures
            final(self).wf(),
            match outcome {
                Ok(()) => old(self)@.after(seq![PatchView::EnableAttack(attack@)]) == Ok::<
                    _,
                    ErrorView,
                >(final(self)@),
                Err(error) => old(self)@.after(seq![PatchView::EnableAttack(attack@)]) == Err::<
                    FrameworkView,
                    _,
                >(error@) && final(self)@ == old(self)@,
            },
    {
        let patches = vec![Patch::EnableAttack(attack.clone())];
        proof {
            assert(patch_views(patches@) =~= seq![PatchView::EnableAttack(attack@)]);
        }
        self.apply_all(&patches)
    }

    /// Switches an optional attack off, as an update line of its own.
    pub fn disable_attack(&mut self, attack: &Attack) -> (outcome: Result<(), Error>)
        requires
            old(self).wf(),
            old(self)@.revision < u64::MAX,
        ensures
            final(self).wf(),
            match outcome {
                Ok(()) => old(self)@.after(seq![PatchView::DisableAttack(attack@)]) == Ok::<
                    _,
                    ErrorView,
                >(final(self)@),
                Err(error) => old(self)@.after(seq![PatchView::DisableAttack(attack@)]) == Err::<
                    FrameworkView,
                    _,
                >(error@) && final(self)@ == old(self)@,
            },
    {
        let patches = vec![Patch::DisableAttack(attack.clone())];
        proof {
            assert(patch_views(patches@) =~= seq![PatchView::DisableAttack(attack@)]);
        }
        self.apply_all(&patches)
    }

    /// Reads an update line, in the explicit or in the terse format, and
    /// applies it: all of its patches at one new revision, or none of them.
    pub fn update(&mut self, update_line: &str) -> (outcome: Result<(), Error>)
        requires
            old(self).wf(),
            old(self)@.revision < u64::MAX,
        ensures
            final(self).wf(),
            match outcome {
                Ok(()) => {
                    &&& parser::patches_of(update_line@) matches Ok(patches)
                    &&& old(self)@.after(patches) == Ok::<_, ErrorView>(final(self)@)
                },
                Err(error) => final(self)@ == old(self)@ && match parser::patches_of(update_line@) {
                    Ok(patches) => old(self)@.after(patches) == Err::<FrameworkView, _>(error@),
                    Err(failure) => error@ == ErrorView::Parser(failure),
                },
            },
    {
        match parse_apxm_tgfm_patch_line(update_line) {
            Ok(patches) => self.apply_all(&patches),
            Err(error) => Err(Error::Parser(error)),
        }
    }

    /// Begins an enumeration of the extensions at the current revision.
    ///
    /// The iterator takes the solver with it, and the commands that the
    /// solver has not been given yet. Until the iterator has come back, the
    /// framework can neither be updated nor begin another enumeration.
    pub fn enumerate_extensions(&mut self) -> (outcome: Result<ExtensionIter, Error>)
        requires
            old(self).wf(),
        ensures
            final(self).wf(),
            match outcome {
                Ok(iter) => {
                    &&& old(self)@.begun() == Ok::<_, ErrorView>(final(self)@)
                    &&& iter.phase() == IterState::Producing
                    &&& iter.orders() == old(self)@.pending
                },
                Err(error) => {
                    &&& old(self)@.begun() == Err::<FrameworkView, _>(error@)
                    &&& final(self)@ == old(self)@
                },
            },
    {
        match self.clingo_ctl.take() {
            None => Err(Error::EngineNotInitialized),
            Some(control) => {
                let mut commands: Vec<Command> = Vec::new();
                core::mem::swap(&mut self.pending, &mut commands);
                proof {
                    assert(command_views(self.pending@) =~= Seq::<CommandView>::empty());
                    assert(self@.arguments() =~= old(self)@.arguments());
                    assert(self@.edges() =~= old(self)@.edges());
                }
                Ok(ExtensionIter::begin(control, commands))
            },
        }
    }

    /// Takes an iterator back, in whatever state it is, and with it the
    /// solver: the framework can be updated and enumerated again. Commands
    /// that the iterator has not handed out are kept for the next
    /// enumeration.
    pub fn drop_extension_iter(&mut self, iter: ExtensionIter) -> (outcome: Result<(), Error>)
        requires
            old(self).wf(),
        ensures
            final(self).wf(),
            outcome is Ok,
            final(self)@ == old(self)@.taken_back(iter.orders()),
    {
        let ghost orders = iter.orders();
        let (control, commands) = iter.end();
        let mut queue = commands;
        let ghost kept = queue@;
        queue.append(&mut self.pending);
        self.pending = queue;
        self.clingo_ctl = Some(control);
        proof {
            assert(command_views(self.pending@) =~= orders + old(self)@.pending);
            assert(self@.arguments() =~= old(self)@.arguments());
            assert(self@.edges() =~= old(self)@.edges());
        }
        Ok(())
    }

    /// The elements that are alive: what the solver reasons about.
    pub fn alive_view(&self) -> (view: (Vec<Argument>, Vec<Attack>))
        requires
            self.wf(),
        ensures
            argument_views(view.0@) == self@.alive_arguments(),
            attack_views(view.1@) == self@.alive_attacks(),
    {
        let mut args: Vec<Argument> = Vec::new();
        let mut i: usize = 0;
        proof {
            assert(argument_views(args@) =~= alive(self@.args.take(0)));
        }
        while i < self.args.len()
            invariant
                i <= self.args.len(),
                self.inv(),
                argument_views(args@) == alive(self@.args.take(i as int)),
            decreases self.args.len() - i,
        {
            proof {
                assert(self@.args.take(i + 1).drop_last() == self@.args.take(i as int));
            }
            let ghost before = argument_views(args@);
            if self.arg_states[i] == State::Alive {
                args.push(self.args[i].clone());
                proof {
                    assert(argument_views(args@) =~= before.push(self.args@[i as int]@));
                }
            }
            i += 1;
        }
        proof {
            assert(self@.args.take(self.args.len() as int) == self@.args);
        }
        let mut attacks: Vec<Attack> = Vec::new();
        let mut j: usize = 0;
        proof {
            assert(attack_views(attacks@) =~= alive(self@.attacks.take(0)));
        }
        while j < self.attacks.len()
            invariant
                j <= self.attacks.len(),
                self.inv(),
                attack_views(attacks@) == alive(self@.attacks.take(j as int)),
            decreases self.attacks.len() - j,
        {
            proof {
                assert(self@.attacks.take(j + 1).drop_last() == self@.attacks.take(j as int));
            }
            let ghost before = attack_views(attacks@);
            if self.attack_states[j] == State::Alive {
                attacks.push(self.attacks[j].clone());
                proof {
                    assert(attack_views(attacks@) =~= before.push(self.attacks@[j as int]@));
                }
            }
            j += 1;
        }
        proof {
            assert(self@.attacks.take(self.attacks.len() as int) == self@.attacks);
        }
        (args, attacks)
    }

    /// Whether the extension is one of the framework at the current
    /// revision, under the criterion of the framework: what the solver has
    /// to deliver is exactly what passes this test.
    pub fn accepts(&self, extension: &Extension) -> (yes: bool)
        requires
            self.wf(),
        ensures
            yes == graph(self@.alive_arguments(), self@.alive_attacks()).accepts(
                S::tag(),
                extension.set(),
            ),
    {
        let (args, attacks) = self.alive_view();
        accepts(S::kind(), &args, &attacks, extension)
    }

    /// The whole framework in the explicit format: every element, the
    /// optional ones marked as such.
    pub fn to_apx(&self) -> (text: String)
        requires
            self.wf(),
        ensures
            text@ == parser::apx::render(self@.arguments(), self@.edges()),
    {
        proof {
            assert(argument_views(self.args@) =~= self@.arguments());
            assert(attack_views(self.attacks@) =~= self@.edges());
        }
        parser::apx::write_file(&self.args, &self.attacks)
    }

    /// What is alive of the framework, in the explicit format and without
    /// any mark.
    pub fn alive_to_apx(&self) -> (text: String)
        requires
            self.wf(),
        ensures
            text@ == parser::apx::render(
                unmarked_arguments(self@.alive_arguments()),
                unmarked_attacks(self@.alive_attacks()),
            ),
    {
        let (alive_args, alive_attacks) = self.alive_view();
        let mut args: Vec<Argument> = Vec::new();
        let mut i: usize = 0;
        while i < alive_args.len()
            invariant
                i <= alive_args.len(),
                args@.len() == i,
                forall|k: int|
                    0 <= k < i ==> (#[trigger] args@[k])@ == (ArgumentView {
                        id: alive_args@[k].id@,
                        optional: false,
                    }),
            decreases alive_args.len() - i,
        {
            args.push(Argument { id: alive_args[i].id.clone(), optional: false });
            i += 1;
        }
        let mut attacks: Vec<Attack> = Vec::new();
        let mut j: usize = 0;
        while j < alive_attacks.len()
            invariant
                j <= alive_attacks.len(),
                attacks@.len() == j,
                forall|k: int|
                    0 <= k < j ==> (#[trigger] attacks@[k])@ == (AttackView {
                        from: alive_attacks@[k].from@,
                        to: alive_attacks@[k].to@,
                        optional: false,
                    }),
            decreases alive_attacks.len() - j,
        {
            attacks.push(
                Attack {
                    from: alive_attacks[j].from.clone(),
                    to: alive_attacks[j].to.clone(),
                    optional: false,
                },
            );
            j += 1;
        }
        proof {
            assert(argument_views(args@) =~= unmarked_arguments(argument_views(alive_args@)));
            assert(attack_views(attacks@) =~= unmarked_attacks(attack_views(alive_attacks@)));
        }
        parser::apx::write_file(&args, &attacks)
    }

    /// Every element with its status and its optional mark.
    pub fn full_view(&self) -> (view: (Vec<(Argument, State)>, Vec<(Attack, State)>))
        requires
            self.wf(),
        ensures
            argument_entry_views(view.0@) == self@.args,
            attack_entry_views(view.1@) == self@.attacks,
    {
        let mut args: Vec<(Argument, State)> = Vec::new();
        let mut i: usize = 0;
        while i < self.args.len()
            invariant
                i <= self.args.len(),
                self.inv(),
                args@.len() == i,
                forall|k: int|
                    0 <= k < i ==> (#[trigger] args@[k]).0@ == self.args@[k]@ && args@[k].1
                        == self.arg_states@[k],
            decreases self.args.len() - i,
        {
            args.push((self.args[i].clone(), self.arg_states[i]));
            i += 1;
        }
        let mut attacks: Vec<(Attack, State)> = Vec::new();
        let mut j: usize = 0;
        while j < self.attacks.len()
            invariant
                j <= self.attacks.len(),
                self.inv(),
                attacks@.len() == j,
                forall|k: int|
                    0 <= k < j ==> (#[trigger] attacks@[k]).0@ == self.attacks@[k]@ && attacks@[k].1
                        == self.attack_states@[k],
            decreases self.attacks.len() - j,
        {
            attacks.push((self.attacks[j].clone(), self.attack_states[j]));
            j += 1;
        }
        proof {
            assert(argument_entry_views(args@) =~= self@.args);
            assert(attack_entry_views(attacks@) =~= self@.attacks);
        }
        (args, attacks)
    }
}

} // verus!
