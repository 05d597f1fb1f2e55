//! What holds of every framework, whatever its history.
use vstd::prelude::*;

use crate::argumentation_framework::backend::{assignment, CommandView};
use crate::argumentation_framework::parser::apx::render;
use crate::argumentation_framework::parser::framework_of;
use crate::argumentation_framework::parser::round_trip::{all_nameable, lemma_round_trip};
use crate::argumentation_framework::semantics::{graph, lemma_no_arguments};
use crate::argumentation_framework::symbols::{ArgumentView, AttackView, State, TargetView};
use crate::argumentation_framework::{
    alive, lemma_setup_assigns_nothing, lemma_truth_after_push, loaded, truth_after,
    FrameworkView, PatchView,
};
use crate::semantics::Kind;
use crate::error::ErrorView;
use crate::framework::Failure;

verus! {

/// The framework after the update lines, one after the other; the error of
/// the first line that cannot be applied.
pub open spec fn after_lines(view: FrameworkView, lines: Seq<Seq<PatchView>>) -> Result<
    FrameworkView,
    ErrorView,
>
    decreases lines.len(),
{
    if lines.len() == 0 {
        Ok(view)
    } else {
        match view.after(lines[0]) {
            Ok(next) => after_lines(next, lines.drop_first()),
            Err(error) => Err(error),
        }
    }
}

/// Whether the framework holds what `target` names.
pub open spec fn known(view: FrameworkView, target: TargetView) -> bool {
    match target {
        TargetView::Argument { id } => view.has_argument(id),
        TargetView::Attack { from, to } => view.has_attack(from, to),
    }
}

/// Whether what `target` names is optional.
pub open spec fn optional(view: FrameworkView, target: TargetView) -> bool {
    match target {
        TargetView::Argument { id } => view.args[view.argument_index(id)].0.optional,
        TargetView::Attack { from, to } => view.attacks[view.attack_index(from, to)].0.optional,
    }
}

/// The status of what `target` names.
pub open spec fn status(view: FrameworkView, target: TargetView) -> State {
    match target {
        TargetView::Argument { id } => view.args[view.argument_index(id)].1,
        TargetView::Attack { from, to } => view.attacks[view.attack_index(from, to)].1,
    }
}

/// A switch keeps what always holds of a framework.
pub proof fn lemma_switch_keeps_wf(view: FrameworkView, target: TargetView, state: State)
    requires
        view.wf(),
    ensures
        view.switch(target, state) matches Ok(next) ==> next.wf() && next.revision
            == view.revision && next.ready == view.ready && next.arguments() == view.arguments()
            && next.edges() == view.edges(),
{
    if let Ok(next) = view.switch(target, state) {
        let grown = view.issued.push(assignment(target, state == State::Alive));
        assert(next.arguments() =~= view.arguments());
        assert(next.edges() =~= view.edges());
        match target {
            TargetView::Argument { id } => {
                let i = view.argument_index(id);
                assert forall|k: int|
                    0 <= k < next.args.len() && (
                    #[trigger] next.args[k]).0.optional implies truth_after(
                    grown,
                    TargetView::Argument { id: next.args[k].0.id },
                ) == (next.args[k].1 == State::Alive) by {
                    lemma_truth_after_push(
                        view.issued,
                        target,
                        state == State::Alive,
                        TargetView::Argument { id: next.args[k].0.id },
                    );
                    if k != i {
                        assert(view.arguments()[k].id != view.arguments()[i].id);
                        assert(view.args[k].0.optional);
                    }
                }
                assert forall|k: int|
                    0 <= k < next.attacks.len() && (
                    #[trigger] next.attacks[k]).0.optional implies truth_after(
                    grown,
                    TargetView::Attack { from: next.attacks[k].0.from, to: next.attacks[k].0.to },
                ) == (next.attacks[k].1 == State::Alive) by {
                    lemma_truth_after_push(
                        view.issued,
                        target,
                        state == State::Alive,
                        TargetView::Attack {
                            from: next.attacks[k].0.from,
                            to: next.attacks[k].0.to,
                        },
                    );
                    assert(view.attacks[k].0.optional);
                }
            },
            TargetView::Attack { from, to } => {
                let i = view.attack_index(from, to);
                assert forall|k: int|
                    0 <= k < next.args.len() && (
                    #[trigger] next.args[k]).0.optional implies truth_after(
                    grown,
                    TargetView::Argument { id: next.args[k].0.id },
                ) == (next.args[k].1 == State::Alive) by {
                    lemma_truth_after_push(
                        view.issued,
                        target,
                        state == State::Alive,
                        TargetView::Argument { id: next.args[k].0.id },
                    );
                    assert(view.args[k].0.optional);
                }
                assert forall|k: int|
                    0 <= k < next.attacks.len() && (
                    #[trigger] next.attacks[k]).0.optional implies truth_after(
                    grown,
                    TargetView::Attack { from: next.attacks[k].0.from, to: next.attacks[k].0.to },
                ) == (next.attacks[k].1 == State::Alive) by {
                    lemma_truth_after_push(
                        view.issued,
                        target,
                        state == State::Alive,
                        TargetView::Attack {
                            from: next.attacks[k].0.from,
                            to: next.attacks[k].0.to,
                        },
                    );
                    if k != i {
                        assert(!(view.edges()[k].from == view.edges()[i].from && view.edges()[k].to
                            == view.edges()[i].to));
                        assert(view.attacks[k].0.optional);
                    }
                }
            },
        }
    }
}

/// A sequence of switches keeps what always holds of a framework, and
/// neither the revision nor the elements.
pub proof fn lemma_switch_all_keeps_wf(view: FrameworkView, patches: Seq<PatchView>)
    requires
        view.wf(),
    ensures
        view.switch_all(patches) matches Ok(next) ==> next.wf() && next.revision == view.revision
            && next.ready == view.ready && next.arguments() == view.arguments() && next.edges()
            == view.edges(),
    decreases patches.len(),
{
    if patches.len() > 0 {
        lemma_switch_keeps_wf(view, patches[0].target(), patches[0].state());
        if let Ok(next) = view.switch(patches[0].target(), patches[0].state()) {
            lemma_switch_all_keeps_wf(next, patches.drop_first());
        }
    }
}

/// An update line that is applied begins the next revision, and leaves a
/// framework of which all holds that held before: the same elements, none
/// of them twice, and a solver that, once it has performed the commands
/// made out for it, holds exactly what is alive at that revision.
pub proof fn lemma_after_keeps_wf(view: FrameworkView, patches: Seq<PatchView>)
    requires
        view.wf(),
    ensures
        view.after(patches) matches Ok(next) ==> next.wf() && next.revision == view.revision + 1
            && next.ready && next.arguments() == view.arguments() && next.edges() == view.edges(),
{
    lemma_switch_all_keeps_wf(view, patches);
    if let Ok(switched) = view.switch_all(patches) {
        let next = switched.next_revision();
        assert(next.arguments() =~= switched.arguments());
        assert(next.edges() =~= switched.edges());
    }
}

/// A framework that was just loaded stands at revision zero, and all holds
/// of it that always holds of a framework.
pub proof fn lemma_loaded_at_revision_zero(
    args: Seq<ArgumentView>,
    attacks: Seq<AttackView>,
    base: Seq<char>,
)
    ensures
        loaded(args, attacks, base) matches Ok(view) ==> view.wf() && view.revision == 0
            && view.ready && view.arguments() == args && view.edges() == attacks,
{
    if let Ok(view) = loaded(args, attacks, base) {
        assert(view.arguments() =~= args);
        assert(view.edges() =~= attacks);
        lemma_setup_assigns_nothing(args, attacks, base);
    }
}

/// The revision counts the update lines: after `n` lines that were
/// applied, the revision is `n` higher than before, and the framework is
/// the one that the last line left.
pub proof fn lemma_revision_counts_lines(view: FrameworkView, lines: Seq<Seq<PatchView>>)
    requires
        view.wf(),
    ensures
        after_lines(view, lines) matches Ok(last) ==> last.wf() && last.revision == view.revision
            + lines.len() && last.arguments() == view.arguments() && last.edges() == view.edges(),
    decreases lines.len(),
{
    if lines.len() > 0 {
        lemma_after_keeps_wf(view, lines[0]);
        if let Ok(next) = view.after(lines[0]) {
            lemma_revision_counts_lines(next, lines.drop_first());
        }
    }
}

/// An update line of one patch is one switch and the step to the next
/// revision.
pub proof fn lemma_single_patch(view: FrameworkView, patch: PatchView)
    ensures
        view.after(seq![patch]) == if !view.ready {
            Err::<FrameworkView, _>(ErrorView::EngineNotInitialized)
        } else {
            match view.switch(patch.target(), patch.state()) {
                Ok(next) => Ok(next.next_revision()),
                Err(error) => Err(error),
            }
        },
{
    let patches = seq![patch];
    assert(patches[0] == patch);
    assert(patches.drop_first().len() == 0);
    reveal_with_fuel(FrameworkView::switch_all, 2);
}

/// A patch for an element that the framework does not hold fails, and the
/// error says that the element is unknown.
pub proof fn lemma_unknown_element(view: FrameworkView, patch: PatchView)
    requires
        view.ready,
        !known(view, patch.target()),
    ensures
        view.after(seq![patch]) == Err::<FrameworkView, _>(
            ErrorView::UnknownElement(patch.target()),
        ),
{
    lemma_single_patch(view, patch);
}

/// A patch for an element that is not optional fails, whether it enables or
/// disables, and the error says that the transition is illegal.
pub proof fn lemma_illegal_transition(view: FrameworkView, patch: PatchView)
    requires
        view.ready,
        known(view, patch.target()),
        !optional(view, patch.target()),
    ensures
        view.after(seq![patch]) == Err::<FrameworkView, _>(
            ErrorView::IllegalTransition(patch.target()),
        ),
{
    lemma_single_patch(view, patch);
}

/// A patch for an optional element that the framework holds is applied.
/// Where the element has the status that the patch asks for, every element
/// keeps its status.
pub proof fn lemma_legal_transition(view: FrameworkView, patch: PatchView)
    requires
        view.wf(),
        view.ready,
        known(view, patch.target()),
        optional(view, patch.target()),
    ensures
        view.after(seq![patch]) matches Ok(next) && status(next, patch.target()) == patch.state()
            && (status(view, patch.target()) == patch.state() ==> next.args == view.args
            && next.attacks == view.attacks),
{
    let patches = seq![patch];
    lemma_single_patch(view, patch);
    lemma_after_keeps_wf(view, patches);
    let next = view.after(patches)->Ok_0;
    match patch.target() {
        TargetView::Argument { id } => {
            let i = view.argument_index(id);
            assert(next.args[i].0.id == id);
            let j = next.argument_index(id);
            if i < j {
                assert(next.arguments()[i].id != next.arguments()[j].id);
            } else if j < i {
                assert(next.arguments()[j].id != next.arguments()[i].id);
            }
            if status(view, patch.target()) == patch.state() {
                assert(next.args =~= view.args);
            }
        },
        TargetView::Attack { from, to } => {
            let i = view.attack_index(from, to);
            assert(next.attacks[i].0.from == from);
            let j = next.attack_index(from, to);
            if i < j {
                assert(!(next.edges()[i].from == next.edges()[j].from && next.edges()[i].to
                    == next.edges()[j].to));
            } else if j < i {
                assert(!(next.edges()[j].from == next.edges()[i].from && next.edges()[j].to
                    == next.edges()[i].to));
            }
            if status(view, patch.target()) == patch.state() {
                assert(next.attacks =~= view.attacks);
            }
        },
    }
}

/// Applying a patch a second time leaves every element with the status
/// that the first time left it with: the extensions are the same both times.
pub proof fn lemma_patch_twice(view: FrameworkView, patch: PatchView)
    requires
        view.wf(),
    ensures
        view.after(seq![patch]) matches Ok(once) ==> (once.after(seq![patch]) matches Ok(twice)
            && twice.args == once.args && twice.attacks == once.attacks && twice.alive_arguments()
            == once.alive_arguments() && twice.alive_attacks() == once.alive_attacks()),
{
    let patches = seq![patch];
    lemma_single_patch(view, patch);
    if let Ok(once) = view.after(patches) {
        lemma_after_keeps_wf(view, patches);
        lemma_single_patch(once, patch);
        match patch.target() {
            TargetView::Argument { id } => {
                let i = view.argument_index(id);
                assert(once.args[i].0.id == id);
                assert(once.has_argument(id));
                let j = once.argument_index(id);
                if i != j {
                    if i < j {
                        assert(once.arguments()[i].id != once.arguments()[j].id);
                    } else {
                        assert(once.arguments()[j].id != once.arguments()[i].id);
                    }
                }
                let twice = once.after(patches)->Ok_0;
                assert(twice.args =~= once.args);
            },
            TargetView::Attack { from, to } => {
                let i = view.attack_index(from, to);
                assert(once.attacks[i].0.from == from);
                assert(once.has_attack(from, to));
                let j = once.attack_index(from, to);
                if i != j {
                    if i < j {
                        assert(!(once.edges()[i].from == once.edges()[j].from && once.edges()[i].to
                            == once.edges()[j].to));
                    } else {
                        assert(!(once.edges()[j].from == once.edges()[i].from && once.edges()[j].to
                            == once.edges()[i].to));
                    }
                }
                let twice = once.after(patches)->Ok_0;
                assert(twice.attacks =~= once.attacks);
            },
        }
    }
}

/// An enumeration that has come back leaves the solver at hand, in
/// whatever state the enumeration was and whatever it still held: the next
/// enumeration can begin at once.
pub proof fn lemma_solver_comes_back(view: FrameworkView, orders: Seq<CommandView>)
    ensures
        view.taken_back(orders).begun() is Ok,
        view.taken_back(orders).wf() == view.wf(),
{
    let back = view.taken_back(orders);
    assert(back.arguments() =~= view.arguments());
    assert(back.edges() =~= view.edges());
}

/// The full text of a framework, read and loaded again, gives the
/// framework as it was loaded: the same arguments and attacks with the same
/// marks, every optional element dead and every other alive. Where the
/// framework has this distribution, as it has at revision zero, the text
/// gives it back as it is.
///
/// This holds of frameworks whose names can stand in the explicit format,
/// and of texts that a machine can hold.
pub proof fn lemma_full_text_gives_the_framework(view: FrameworkView, base: Seq<char>)
    requires
        view.wf(),
        all_nameable(view.arguments(), view.edges()),
        render(view.arguments(), view.edges()).len() <= usize::MAX,
    ensures
        framework_of(render(view.arguments(), view.edges())) == Ok::<_, Failure>(
            (view.arguments(), view.edges()),
        ),
        loaded(view.arguments(), view.edges(), base) matches Ok(again) && again.wf()
            && again.revision == 0 && again.arguments() == view.arguments() && again.edges()
            == view.edges() && ((forall|i: int|
            0 <= i < view.args.len() ==> (#[trigger] view.args[i]).1 == State::initial(
                view.args[i].0.optional,
            )) ==> again.args == view.args) && ((forall|i: int|
            0 <= i < view.attacks.len() ==> (#[trigger] view.attacks[i]).1 == State::initial(
                view.attacks[i].0.optional,
            )) ==> again.attacks == view.attacks),
{
    lemma_round_trip(view.arguments(), view.edges());
    lemma_loaded_at_revision_zero(view.arguments(), view.edges(), base);
    let again = loaded(view.arguments(), view.edges(), base)->Ok_0;
    if forall|i: int|
        0 <= i < view.args.len() ==> (#[trigger] view.args[i]).1 == State::initial(
            view.args[i].0.optional,
        ) {
        assert(again.args =~= view.args);
    }
    if forall|i: int|
        0 <= i < view.attacks.len() ==> (#[trigger] view.attacks[i]).1 == State::initial(
            view.attacks[i].0.optional,
        ) {
        assert(again.attacks =~= view.attacks);
    }
}

/// Where no element is alive, none is listed as alive.
pub proof fn lemma_none_alive<T>(entries: Seq<(T, State)>)
    requires
        forall|i: int| 0 <= i < entries.len() ==> (#[trigger] entries[i]).1 == State::Dead,
    ensures
        alive(entries).len() == 0,
    decreases entries.len(),
{
    if entries.len() > 0 {
        assert(entries.last() == entries[entries.len() - 1]);
        assert forall|i: int| 0 <= i < entries.drop_last().len() implies (
        #[trigger] entries.drop_last()[i]).1 == State::Dead by {
            assert(entries.drop_last()[i] == entries[i]);
        }
        lemma_none_alive(entries.drop_last());
    }
}

/// A framework in which no argument is alive, and so every framework
/// without arguments, has the empty set as an extension under every
/// criterion, and no other set.
pub proof fn lemma_nothing_alive_accepts_nothing(
    view: FrameworkView,
    kind: Kind,
    set: Set<Seq<char>>,
)
    requires
        forall|i: int| 0 <= i < view.args.len() ==> (#[trigger] view.args[i]).1 == State::Dead,
    ensures
        graph(view.alive_arguments(), view.alive_attacks()).accepts(kind, set) <==> set
            == Set::<Seq<char>>::empty(),
{
    lemma_none_alive(view.args);
    assert(view.alive_arguments() =~= Seq::<ArgumentView>::empty());
    lemma_no_arguments(view.alive_attacks(), kind, set);
}

/// The solver mirrors the framework: once it has performed every command
/// that was made out for it, it holds the atom of an optional element true
/// exactly if the element is alive at the current revision.
pub proof fn lemma_solver_mirrors_framework(view: FrameworkView, i: int, j: int)
    requires
        view.wf(),
    ensures
        0 <= i < view.args.len() && view.args[i].0.optional ==> truth_after(
            view.issued,
            TargetView::Argument { id: view.args[i].0.id },
        ) == (view.args[i].1 == State::Alive),
        0 <= j < view.attacks.len() && view.attacks[j].0.optional ==> truth_after(
            view.issued,
            TargetView::Attack { from: view.attacks[j].0.from, to: view.attacks[j].0.to },
        ) == (view.attacks[j].1 == State::Alive),
{
}

} // verus!
