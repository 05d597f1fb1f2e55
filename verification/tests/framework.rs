use std::collections::BTreeSet;

use dasp::argumentation_framework::backend::{acknowledge, Command, Reply};
use dasp::argumentation_framework::extension::{Extension, Model};
use dasp::argumentation_framework::semantics::ArgumentationFrameworkSemantic;
use dasp::argumentation_framework::symbols::{Argument, Attack, State, Target};
use dasp::argumentation_framework::{
    ArgumentationFramework, IterState, Patch, SolveEvent,
};
use dasp::framework::{
    is_credulous_accepted, is_skeptical_accepted, GenericExtension, ParserError,
};
use dasp::semantics::{Admissible, Complete, ConflictFree, Ground, Stable};
use dasp::Error;

fn ext(names: &[&str]) -> Extension {
    Extension::from_iter(names.iter().map(|name| name.to_string()).collect())
}

fn set(extensions: Vec<Extension>) -> BTreeSet<Extension> {
    extensions.into_iter().collect()
}

/// Every set of arguments that the framework accepts at its current
/// revision.
fn extensions_of<S: ArgumentationFrameworkSemantic>(
    af: &mut ArgumentationFramework<S>,
) -> BTreeSet<Extension> {
    let names: Vec<String> = af.full_view().0.into_iter().map(|(arg, _)| arg.id).collect();
    assert!(names.len() < 16);
    let mut found = Vec::new();
    for mask in 0..(1usize << names.len()) {
        let chosen: Vec<String> = names
            .iter()
            .enumerate()
            .filter(|(i, _)| mask & (1 << i) != 0)
            .map(|(_, name)| name.clone())
            .collect();
        let candidate = Extension::from_iter(chosen);
        if af.accepts(&candidate) {
            found.push(candidate);
        }
    }
    let count = found.len();
    let extensions: BTreeSet<Extension> = found.into_iter().collect();
    assert_eq!(count, extensions.len(), "Some extensions occured more than once!");
    extensions
}

fn extensions<S: ArgumentationFrameworkSemantic>(program: &str) -> BTreeSet<Extension> {
    let mut af = ArgumentationFramework::<S>::new(program).expect("Creating AF");
    extensions_of(&mut af)
}

#[test]
fn the_empty_af() {
    let only_empty_extension = set(vec![Extension::empty()]);
    assert_eq!(extensions::<Admissible>(""), only_empty_extension);
    assert_eq!(extensions::<Complete>(""), only_empty_extension);
    assert_eq!(extensions::<Ground>(""), only_empty_extension);
    assert_eq!(extensions::<Stable>(""), only_empty_extension);
    assert_eq!(extensions::<ConflictFree>(""), only_empty_extension);
}

#[test]
fn simple_admissible_af() {
    let extensions = extensions::<Admissible>(
        r#"
            arg(a1).
            arg(a2).
            arg(a3).
            att(a1, a3).
            att(a2, a3).
            att(a3, a2).
        "#,
    );
    assert_eq!(extensions, set(vec![Extension::empty(), ext(&["a1"]), ext(&["a2"]), ext(&["a1", "a2"])]))
}

#[test]
fn simple_complete_af() {
    let extensions = extensions::<Complete>(
        r#"
            arg(1).
            arg(2).
            arg(3).
            att(1, 3).
            att(2, 3).
            att(3, 2).
        "#,
    );
    assert_eq!(extensions, set(vec![ext(&["1", "2"])]))
}

#[test]
fn simple_ground_af() {
    let exts = extensions::<Ground>(
        r#"
            arg(1).
            arg(2).
            arg(3).
            att(1, 3).
            att(2, 3).
            att(3, 2).
        "#,
    );
    assert_eq!(exts, set(vec![ext(&["1", "2"])]));

    let exts = extensions::<Ground>(
        r#"
            arg(1).
        "#,
    );
    assert_eq!(exts, set(vec![ext(&["1"])]));

    let exts = extensions::<Ground>(
        r#"
            arg(1).
            arg(2).
            att(1, 2).
            att(2, 1).
        "#,
    );
    assert_eq!(exts, set(vec![Extension::empty()]));
}

#[test]
fn simple_stable_af() {
    let exts = extensions::<Stable>(
        r#"
            arg(1).
            arg(2).
            arg(3).
            att(1, 3).
            att(2, 3).
            att(3, 2).
        "#,
    );
    assert_eq!(exts, set(vec![ext(&["1", "2"])]));

    let exts = extensions::<Stable>(
        r#"
            arg(1).
        "#,
    );
    assert_eq!(exts, set(vec![ext(&["1"])]));

    let exts = extensions::<Stable>(
        r#"
            arg(1).
            arg(2).
            att(1, 2).
            att(2, 1).
        "#,
    );
    assert_eq!(exts, set(vec![ext(&["1"]), ext(&["2"])]));

    let exts = extensions::<Stable>(
        r#"
            arg(1).
            arg(2).
            att(1, 2).
            att(1, 1).
        "#,
    );
    assert_eq!(exts, set(vec![]));
}

#[test]
fn update_admissible_af() {
    let mut af = ArgumentationFramework::<Admissible>::new(
        r#"
            arg(alpha).
            arg(beta).

            att(alpha, beta).
            opt(att(alpha, beta)).

            att(alpha, alpha).
            opt(att(alpha, alpha)).
        "#,
    )
    .expect("Creating AF");
    // Enable alpha->beta by default
    af.update("+att(alpha, beta).")
        .expect("Enable attack alpha->beta");
    let exts = extensions_of(&mut af);
    assert_eq!(exts, set(vec![ext(&[]), ext(&["alpha"])]));

    af.update("+att(alpha, alpha).")
        .expect("Enable attack alpha->alpha");
    let exts = extensions_of(&mut af);
    assert_eq!(exts, set(vec![ext(&[])]));

    af.update("-att(alpha, beta).")
        .expect("Disable attack from AF");
    let exts = extensions_of(&mut af);
    assert_eq!(exts, set(vec![ext(&[]), ext(&["beta"])]));
}

#[test]
fn re_enabling_arguments_in_admissible_af() {
    let mut af = ArgumentationFramework::<Admissible>::new(
        r#"
            arg(a1).
            arg(a2).

            opt(arg(a1)).
        "#,
    )
    .expect("Creating AF");
    // Enable arg(1) by default
    af.update("+arg(a1).").expect("Enable argument a1");
    let exts = extensions_of(&mut af);
    assert_eq!(exts, set(vec![ext(&[]), ext(&["a1"]), ext(&["a2"]), ext(&["a1", "a2"])]));

    af.update("-arg(a1).").expect("Disable argument 1");
    let exts = extensions_of(&mut af);
    assert_eq!(exts, set(vec![ext(&[]), ext(&["a2"])]));

    af.update("+arg(a1).").expect("Re-Enable argument 1");
    let exts = extensions_of(&mut af);
    assert_eq!(exts, set(vec![ext(&[]), ext(&["a1"]), ext(&["a2"]), ext(&["a1", "a2"])]));
}

#[test]
fn re_enabling_attacks_in_admissible_af() {
    let mut af = ArgumentationFramework::<Admissible>::new(
        r#"
            arg(a1).
            arg(a2).

            att(a1, a2).
            opt(att(a1, a2)).
        "#,
    )
    .expect("Creating AF");
    // Enable a1->a2 by default
    af.update("+att(a1, a2).")
        .expect("Enable attack from a1 to a2");
    let exts = extensions_of(&mut af);
    assert_eq!(exts, set(vec![ext(&[]), ext(&["a1"])]));

    af.update("-att(a1, a2).")
        .expect("Disable attack from a1 to a2");
    let exts = extensions_of(&mut af);
    assert_eq!(exts, set(vec![ext(&[]), ext(&["a1"]), ext(&["a2"]), ext(&["a1", "a2"])]));

    af.update("+att(a1, a2).")
        .expect("Re-Enable attack from a1 to a2");
    let exts = extensions_of(&mut af);
    assert_eq!(exts, set(vec![ext(&[]), ext(&["a1"])]));
}

#[test]
fn enabling_arguments_in_admissible_afs() {
    let mut af = ArgumentationFramework::<Admissible>::new(
        r#"
            arg(a).
            opt(arg(a)).

            arg(b).
            opt(arg(b)).
        "#,
    )
    .expect("Creating AF");
    assert_eq!(extensions_of(&mut af), set(vec![ext(&[])]));
    af.update("+arg(a).").expect("Enable argument a");
    assert_eq!(extensions_of(&mut af), set(vec![ext(&[]), ext(&["a"])]));
    af.update("+arg(b).").expect("Enable argument b");
    assert_eq!(
        extensions_of(&mut af),
        set(vec![ext(&[]), ext(&["a"]), ext(&["b"]), ext(&["a", "b"])])
    );

    let mut af = ArgumentationFramework::<Admissible>::new(
        r#"
            arg(a).
            arg(b).
            att(a, b).

            arg(c).
            opt(arg(c)).
        "#,
    )
    .expect("Creating AF");
    assert_eq!(extensions_of(&mut af), set(vec![ext(&[]), ext(&["a"])]));
    af.update("+arg(c).").expect("Enable argument c");
    assert_eq!(
        extensions_of(&mut af),
        set(vec![ext(&[]), ext(&["a"]), ext(&["c"]), ext(&["a", "c"])])
    );
}

#[test]
fn enabling_attacks_in_admissible_afs() {
    let mut af = ArgumentationFramework::<Admissible>::new(
        r#"
            arg(a).
            arg(b).

            att(b, a).
            opt(att(b, a)).

            att(a, b).
            opt(att(a, b)).
        "#,
    )
    .expect("Creating AF");
    assert_eq!(
        extensions_of(&mut af),
        set(vec![ext(&[]), ext(&["a"]), ext(&["b"]), ext(&["a", "b"])])
    );
    af.update("+att(b, a).").expect("Enable attack from b to a");
    assert_eq!(extensions_of(&mut af), set(vec![ext(&[]), ext(&["b"])]));
    af.update("+att(a, b).").expect("Enable attack from a to b");
    assert_eq!(extensions_of(&mut af), set(vec![ext(&[]), ext(&["a"]), ext(&["b"])]));
}

#[test]
fn enabling_arguments_and_attacks_in_admissible_afs() {
    let mut af = ArgumentationFramework::<Admissible>::new(
        r#"
            arg(a).
            opt(arg(a)).

            arg(b).
            opt(arg(b)).

            att(a, b).
            opt(att(a, b)).

            att(b, a).
            opt(att(b, a)).

            arg(c).
            opt(arg(c)).

            att(c, a).
            opt(att(c, a)).
        "#,
    )
    .expect("Creating AF");
    assert_eq!(extensions_of(&mut af), set(vec![ext(&[])]));
    af.update("+arg(a).").expect("Enable argument a");
    assert_eq!(extensions_of(&mut af), set(vec![ext(&[]), ext(&["a"])]));
    af.update("+arg(b).").expect("Enable argument b");
    assert_eq!(
        extensions_of(&mut af),
        set(vec![ext(&[]), ext(&["a"]), ext(&["b"]), ext(&["a", "b"])])
    );
    af.update("+att(a, b).").expect("Enable attack from a to b");
    assert_eq!(extensions_of(&mut af), set(vec![ext(&[]), ext(&["a"])]));
    af.update("+att(b, a).").expect("Enable attack from b to a");
    assert_eq!(extensions_of(&mut af), set(vec![ext(&[]), ext(&["a"]), ext(&["b"])]));

    af.update("+arg(c).").expect("Enable argument c");
    assert_eq!(
        extensions_of(&mut af),
        set(vec![
            ext(&[]),
            ext(&["a"]),
            ext(&["b"]),
            ext(&["c"]),
            ext(&["a", "c"]),
            ext(&["b", "c"])
        ])
    );
    af.update("+att(c, a).").expect("Enable attack from c to a");
    assert_eq!(
        extensions_of(&mut af),
        set(vec![ext(&[]), ext(&["b"]), ext(&["c"]), ext(&["b", "c"])])
    );
}

#[test]
fn simple_conflict_free_af() {
    let mut af = ArgumentationFramework::<ConflictFree>::new(
        r#"
            arg(a).
            arg(b).
            att(a, b).
        "#,
    )
    .expect("Creating AF");
    assert_eq!(extensions_of(&mut af), set(vec![ext(&[]), ext(&["a"]), ext(&["b"])]));
}

#[test]
fn simple_conflict_free_af_with_enabling_arguments_and_attacks() {
    let mut af = ArgumentationFramework::<ConflictFree>::new(
        r#"
            arg(a).
            arg(b).
            att(a, b).

            att(b, a).
            opt(att(b, a)).

            arg(c).
            opt(arg(c)).

            att(c, a).
            opt(att(c, a)).
        "#,
    )
    .expect("Creating AF");
    assert_eq!(extensions_of(&mut af), set(vec![ext(&[]), ext(&["a"]), ext(&["b"])]));
    af.update("+att(b, a).").expect("Enable attack from b to a");
    assert_eq!(extensions_of(&mut af), set(vec![ext(&[]), ext(&["a"]), ext(&["b"])]));
    af.update("+arg(c).").expect("Enable argument c");
    assert_eq!(
        extensions_of(&mut af),
        set(vec![
            ext(&[]),
            ext(&["a"]),
            ext(&["b"]),
            ext(&["c"]),
            ext(&["a", "c"]),
            ext(&["b", "c"])
        ])
    );
    af.update("+att(c, a).").expect("Enable attack from c to a");
    assert_eq!(
        extensions_of(&mut af),
        set(vec![ext(&[]), ext(&["a"]), ext(&["b"]), ext(&["c"]), ext(&["b", "c"])])
    )
}

#[test]
fn simple_conflict_free_af_with_general_updates() {
    let mut af = ArgumentationFramework::<ConflictFree>::new(
        r#"
            arg(a).
            arg(b).
            arg(c).
            att(a, b).
            att(c, a).

            opt(att(a, b)).
            opt(arg(a)).
        "#,
    )
    .expect("Creating AF");
    // Enable a, and a->b by default
    af.update("+att(a, b).")
        .expect("Enabling attack from a to b");
    af.update("+arg(a).").expect("Enabling argument a");
    assert_eq!(
        extensions_of(&mut af),
        set(vec![ext(&[]), ext(&["a"]), ext(&["b"]), ext(&["c"]), ext(&["b", "c"])])
    );
    af.update("-att(a, b).")
        .expect("Removing attack from a to b");
    assert_eq!(
        extensions_of(&mut af),
        set(vec![
            ext(&[]),
            ext(&["a"]),
            ext(&["b"]),
            ext(&["c"]),
            ext(&["a", "b"]),
            ext(&["b", "c"])
        ])
    );
    af.update("-arg(a).").expect("Removing argument a");
    assert_eq!(
        extensions_of(&mut af),
        set(vec![ext(&[]), ext(&["b"]), ext(&["c"]), ext(&["b", "c"])])
    )
}

#[test]
fn self_attack_excludes_the_argument() {
    let exts = extensions::<ConflictFree>("arg(x). arg(y). att(x, x).");
    assert_eq!(exts, set(vec![ext(&[]), ext(&["y"])]));
    let mut af =
        ArgumentationFramework::<ConflictFree>::new("arg(x). att(x, x). opt(att(x, x)).").unwrap();
    assert_eq!(extensions_of(&mut af), set(vec![ext(&[]), ext(&["x"])]));
    af.update("+att(x, x).").unwrap();
    assert_eq!(extensions_of(&mut af), set(vec![ext(&[])]));
}

#[test]
fn parse_line_reads_both_formats() {
    let patches = Patch::parse_line("+arg(a4):att(a4, a1):att(a2, a4).").unwrap();
    assert_eq!(
        patches,
        vec![
            Patch::EnableArgument(Argument::new("a4", false)),
            Patch::EnableAttack(Attack::new("a4", "a1", false)),
            Patch::EnableAttack(Attack::new("a2", "a4", false)),
        ]
    );
    let patches = Patch::parse_line("+att(a1, a3).").unwrap();
    assert_eq!(patches, vec![Patch::EnableAttack(Attack::new("a1", "a3", false))]);
    let patches = Patch::parse_line("-att(a2,a1).").unwrap();
    assert_eq!(patches, vec![Patch::DisableAttack(Attack::new("a2", "a1", false))]);
    let patches = Patch::parse_line("-arg(a3).").unwrap();
    assert_eq!(patches, vec![Patch::DisableArgument(Argument::new("a3", false))]);
    let patches = Patch::parse_line("-a3 a4").unwrap();
    assert_eq!(patches, vec![Patch::DisableAttack(Attack::new("a3", "a4", false))]);
    assert_eq!(
        Patch::parse_line("?").unwrap_err(),
        Error::Parser(ParserError::UnexpectedToken { start: 0, end: 1, text: String::from("?") })
    );
}

fn states<S: ArgumentationFrameworkSemantic>(af: &ArgumentationFramework<S>) -> (Vec<State>, Vec<State>) {
    let (args, attacks) = af.full_view();
    (
        args.into_iter().map(|(_, state)| state).collect(),
        attacks.into_iter().map(|(_, state)| state).collect(),
    )
}

const MIXED: &str = "arg(a). arg(b). arg(c). opt(arg(b)). att(a, b). att(b, c). opt(att(b, c)).";

#[test]
fn load_starts_optional_elements_dead() {
    let af = ArgumentationFramework::<Admissible>::new(MIXED).unwrap();
    assert_eq!(af.revision(), 0);
    assert_eq!(
        states(&af),
        (vec![State::Alive, State::Dead, State::Alive], vec![State::Alive, State::Dead])
    );
    let (args, attacks) = af.alive_view();
    assert_eq!(args, vec![Argument::new("a", false), Argument::new("c", false)]);
    assert_eq!(attacks, vec![Attack::new("a", "b", false)]);
    let (args, attacks) = af.full_view();
    assert_eq!(args.iter().map(|(a, _)| a.optional).collect::<Vec<_>>(), vec![false, true, false]);
    assert_eq!(attacks.iter().map(|(a, _)| a.optional).collect::<Vec<_>>(), vec![false, true]);
}

#[test]
fn load_rejects_duplicates() {
    let twice = ArgumentationFramework::<Admissible>::new("arg(a). arg(b). arg(a). arg(b).");
    assert_eq!(
        twice.err(),
        Some(Error::Parser(ParserError::DuplicateArgument { arg_id: String::from("a") }))
    );
    let twice = ArgumentationFramework::<Admissible>::new("arg(a). att(a, a). att(a, a).");
    assert_eq!(
        twice.err(),
        Some(Error::Parser(ParserError::DuplicateAttack {
            from: String::from("a"),
            to: String::from("a")
        }))
    );
    let twice = ArgumentationFramework::<Admissible>::load(
        vec![Argument::new("a", false), Argument::new("a", true)],
        vec![],
    );
    assert!(twice.is_err());
    // a text in neither format: the error is that of the terse format
    let text = ArgumentationFramework::<Admissible>::new("arg(a");
    assert_eq!(
        text.err(),
        Some(Error::Parser(ParserError::UnexpectedToken {
            start: 3,
            end: 4,
            text: String::from("(")
        }))
    );
}

#[test]
fn disabling_what_is_not_optional_is_illegal() {
    let mut af = ArgumentationFramework::<Admissible>::new(MIXED).unwrap();
    let before = states(&af);
    assert_eq!(
        af.apply_patch(&Patch::DisableArgument(Argument::new("a", false))),
        Err(Error::IllegalTransition(Target::Argument { id: String::from("a") }))
    );
    assert_eq!(
        af.apply_patch(&Patch::DisableAttack(Attack::new("a", "b", false))),
        Err(Error::IllegalTransition(Target::Attack {
            from: String::from("a"),
            to: String::from("b")
        }))
    );
    assert_eq!(
        af.apply_patch(&Patch::EnableArgument(Argument::new("a", false))),
        Err(Error::IllegalTransition(Target::Argument { id: String::from("a") }))
    );
    assert_eq!(af.update("-arg(c)."), Err(Error::IllegalTransition(Target::Argument { id: String::from("c") })));
    assert_eq!(states(&af), before);
    assert_eq!(af.revision(), 0);
}

#[test]
fn enabling_what_does_not_exist_is_unknown() {
    let mut af = ArgumentationFramework::<Admissible>::new(MIXED).unwrap();
    let before = states(&af);
    assert_eq!(
        af.apply_patch(&Patch::EnableArgument(Argument::new("z", false))),
        Err(Error::UnknownElement(Target::Argument { id: String::from("z") }))
    );
    assert_eq!(
        af.enable_attack(&Attack::new("b", "a", false)),
        Err(Error::UnknownElement(Target::Attack {
            from: String::from("b"),
            to: String::from("a")
        }))
    );
    assert_eq!(
        af.disable_argument(&Argument::new("z", false)),
        Err(Error::UnknownElement(Target::Argument { id: String::from("z") }))
    );
    assert_eq!(states(&af), before);
    assert_eq!(af.revision(), 0);
}

#[test]
fn enabling_twice_changes_nothing_the_second_time() {
    let mut af = ArgumentationFramework::<Admissible>::new(MIXED).unwrap();
    af.update("+arg(b).").unwrap();
    let once = states(&af);
    let extensions_once = extensions_of(&mut af);
    assert_eq!(once.0, vec![State::Alive, State::Alive, State::Alive]);
    af.update("+arg(b).").unwrap();
    assert_eq!(states(&af), once);
    assert_eq!(extensions_of(&mut af), extensions_once);
    assert_eq!(af.revision(), 2);
    af.disable_attack(&Attack::new("b", "c", true)).unwrap();
    assert_eq!(states(&af), once);
    assert_eq!(af.revision(), 3);
}

#[test]
fn revision_counts_the_applied_lines() {
    let mut af = ArgumentationFramework::<ConflictFree>::new(MIXED).unwrap();
    let lines = ["+arg(b).", "+att(b, c).", "-arg(b).", "+b:b c", "-b c"];
    for (n, line) in lines.iter().enumerate() {
        assert_eq!(af.revision(), n as u64);
        af.update(line).unwrap();
    }
    assert_eq!(af.revision(), 5);
    assert!(af.update("-arg(a).").is_err());
    assert!(af.update("nonsense").is_err());
    assert_eq!(af.revision(), 5);
    assert_eq!(
        states(&af),
        (vec![State::Alive, State::Alive, State::Alive], vec![State::Alive, State::Dead])
    );
    assert_eq!(
        extensions_of(&mut af),
        set(vec![ext(&[]), ext(&["a"]), ext(&["b"]), ext(&["c"]), ext(&["a", "c"]), ext(&["b", "c"])])
    );
}

#[test]
fn a_line_is_applied_as_a_whole_or_not_at_all() {
    let mut af = ArgumentationFramework::<Admissible>::new(MIXED).unwrap();
    let before = states(&af);
    assert_eq!(
        af.update("+arg(b):att(b, c):att(c, b)."),
        Err(Error::UnknownElement(Target::Attack {
            from: String::from("c"),
            to: String::from("b")
        }))
    );
    assert_eq!(states(&af), before);
    assert_eq!(af.revision(), 0);
    let mut iter = af.enumerate_extensions().unwrap();
    assert_eq!(iter.take_commands().len(), 4);
    af.drop_extension_iter(iter).unwrap();

    af.update("+arg(b):att(b, c).").unwrap();
    assert_eq!(af.revision(), 1);
    assert_eq!(
        states(&af),
        (vec![State::Alive, State::Alive, State::Alive], vec![State::Alive, State::Alive])
    );
    let mut iter = af.enumerate_extensions().unwrap();
    assert_eq!(
        iter.take_commands(),
        vec![
            Command::AssignExternal { target: Target::Argument { id: String::from("b") }, truth: true },
            Command::AssignExternal {
                target: Target::Attack { from: String::from("b"), to: String::from("c") },
                truth: true
            },
        ]
    );
    af.drop_extension_iter(iter).unwrap();
}

#[test]
fn setup_commands_declare_the_framework() {
    let mut af = ArgumentationFramework::<ConflictFree>::new(MIXED).unwrap();
    let mut iter = af.enumerate_extensions().unwrap();
    let commands = iter.take_commands();
    assert_eq!(commands.len(), 4);
    assert_eq!(
        commands[0],
        Command::Add {
            name: String::from("facts"),
            program: String::from(
                "argument(a). #external argument(b). argument(c). attack(a, b). #external attack(b, c). "
            ),
        }
    );
    match &commands[1] {
        Command::Add { name, program } => {
            assert_eq!(name, "base");
            assert_eq!(program, ConflictFree::base());
            assert!(program.contains(":- in(X), in(Y), attack(X,Y)."));
        }
        other => panic!("unexpected command {:?}", other),
    }
    match &commands[2] {
        Command::Add { name, program } => {
            assert_eq!(name, "show");
            assert!(program.contains("#show X: in(X)."));
        }
        other => panic!("unexpected command {:?}", other),
    }
    assert_eq!(
        commands[3],
        Command::Ground {
            parts: vec![String::from("base"), String::from("show"), String::from("facts")]
        }
    );
    assert!(iter.take_commands().is_empty());
    af.drop_extension_iter(iter).unwrap();
}

fn model(shown: &[&str]) -> SolveEvent {
    SolveEvent::Model(Model { shown: shown.iter().map(|s| s.to_string()).collect() })
}

#[test]
fn iterator_follows_the_solver() {
    let mut af = ArgumentationFramework::<Admissible>::new("arg(a). arg(b).").unwrap();
    let mut iter = af.enumerate_extensions().unwrap();
    assert_eq!(iter.state(), IterState::Producing);
    assert!(iter.wants_model());
    assert_eq!(iter.next(model(&["b", "\"a\""])), Ok(Some(ext(&["a", "b"]))));
    assert_eq!(iter.next(model(&[])), Ok(Some(Extension::empty())));
    assert_eq!(iter.state(), IterState::Producing);
    assert_eq!(iter.next(SolveEvent::Exhausted), Ok(None));
    assert_eq!(iter.state(), IterState::Exhausted);
    assert!(!iter.wants_model());
    assert_eq!(iter.next(model(&["a"])), Ok(None));
    assert_eq!(iter.next(SolveEvent::Fault(String::from("late"))), Ok(None));
    assert_eq!(iter.state(), IterState::Exhausted);
    af.drop_extension_iter(iter).unwrap();

    let mut iter = af.enumerate_extensions().unwrap();
    assert_eq!(
        iter.next(SolveEvent::Fault(String::from("out of memory"))),
        Err(Error::EngineFault(String::from("out of memory")))
    );
    assert_eq!(iter.state(), IterState::Closed);
    assert_eq!(iter.next(model(&["a"])), Ok(None));
    assert_eq!(iter.state(), IterState::Closed);
    af.drop_extension_iter(iter).unwrap();
}

#[test]
fn solver_comes_back_from_every_state() {
    let mut af = ArgumentationFramework::<Admissible>::new(MIXED).unwrap();

    // abandoned after one extension
    let mut iter = af.enumerate_extensions().unwrap();
    assert_eq!(af.enumerate_extensions().err(), Some(Error::EngineNotInitialized));
    assert_eq!(af.update("+arg(b)."), Err(Error::EngineNotInitialized));
    assert_eq!(af.revision(), 0);
    iter.next(model(&["a"])).unwrap();
    af.drop_extension_iter(iter).unwrap();

    // drained
    let mut iter = af.enumerate_extensions().unwrap();
    iter.next(SolveEvent::Exhausted).unwrap();
    af.drop_extension_iter(iter).unwrap();

    // failed
    let mut iter = af.enumerate_extensions().unwrap();
    assert!(iter.next(SolveEvent::Fault(String::from("fault"))).is_err());
    af.drop_extension_iter(iter).unwrap();

    // never asked, commands never handed out: they are kept
    af.update("+arg(b).").unwrap();
    let iter = af.enumerate_extensions().unwrap();
    af.drop_extension_iter(iter).unwrap();
    let mut iter = af.enumerate_extensions().unwrap();
    assert_eq!(iter.take_commands().len(), 5);
    af.drop_extension_iter(iter).unwrap();
    assert_eq!(af.revision(), 1);
}

#[test]
fn extensions_are_ordered_sets() {
    let extension = ext(&["b", "a", "c", "a", "b"]);
    assert_eq!(extension.len(), 3);
    assert_eq!(extension.format(), "[a,b,c]");
    assert_eq!(Extension::empty().format(), "[]");
    assert_eq!(ext(&["x"]).format(), "[x]");
    assert_eq!(ext(&["a", "b"]), ext(&["b", "a"]));
    assert_ne!(ext(&["a", "b"]), ext(&["a"]));
    assert_ne!(Extension::empty(), ext(&["a"]));
    assert!(extension.contains(&Argument::new("b", true)));
    assert!(!extension.contains(&Argument::new("d", false)));
    assert_eq!(ext(&["a10", "a9", "a1", "B", "_"]).format(), "[B,_,a1,a10,a9]");
    assert_eq!(ext(&["ab", "a", "abc", ""]).format(), "[,a,ab,abc]");
}

#[test]
fn models_are_decoded_without_quotes() {
    let extension = Extension::from_model(&Model {
        shown: vec![String::from("\"b\""), String::from("a"), String::from("\"\"c\"")],
    })
    .unwrap();
    assert_eq!(extension, ext(&["a", "b", "c"]));
    let extension = Extension::from_model(&Model { shown: vec![String::from("\"\"\"")] }).unwrap();
    assert_eq!(extension, ext(&[""]));
    let extension = Extension::from_model(&Model { shown: vec![String::from("a\"b")] }).unwrap();
    assert_eq!(extension, ext(&["a\"b"]));
}

#[test]
fn full_text_is_read_back_as_it_was_loaded() {
    let af = ArgumentationFramework::<Admissible>::new(MIXED).unwrap();
    let text = af.to_apx();
    assert_eq!(
        text,
        "arg(a).\narg(b). opt(arg(b)).\narg(c).\natt(a, b).\natt(b, c). opt(att(b, c)).\n"
    );
    let again = ArgumentationFramework::<Admissible>::new(&text).unwrap();
    assert_eq!(states(&again), states(&af));
    assert_eq!(again.full_view(), af.full_view());
    assert_eq!(again.to_apx(), text);

    let mut af = af;
    af.update("+arg(b).").unwrap();
    assert_eq!(af.alive_to_apx(), "arg(a).\narg(b).\narg(c).\natt(a, b).\n");
}

#[test]
fn symbols_name_the_atoms() {
    assert_eq!(Argument::new("a1", true).symbol(), "argument(a1)");
    assert_eq!(Attack::new("a1", "a2", false).symbol(), "attack(a1,a2)");
    assert_eq!(Argument::new("a", false), Argument::new("a", true));
    assert_ne!(Argument::new("a", false), Argument::new("b", false));
    assert_eq!(Attack::new("a", "b", false), Attack::new("a", "b", true));
    assert_ne!(Attack::new("a", "b", false), Attack::new("b", "a", false));
}

#[test]
fn credulous_and_skeptical_acceptance() {
    let mut af = ArgumentationFramework::<Admissible>::new(
        "arg(a). arg(b). arg(c). att(a, b). att(b, a). att(b, c).",
    )
    .unwrap();
    let extensions: Vec<Extension> = extensions_of(&mut af).into_iter().collect();
    assert_eq!(extensions, vec![ext(&[]), ext(&["a"]), ext(&["a", "c"]), ext(&["b"])]);
    assert!(is_credulous_accepted(&extensions, &Argument::new("c", false)));
    assert!(!is_credulous_accepted(&extensions, &Argument::new("d", false)));
    assert!(!is_skeptical_accepted(&extensions, &Argument::new("a", false)));
    let stable: Vec<Extension> = vec![ext(&["a", "c"]), ext(&["a"])];
    assert!(is_skeptical_accepted(&stable, &Argument::new("a", false)));
    assert!(!is_skeptical_accepted(&stable, &Argument::new("c", false)));
    let none: Vec<Extension> = vec![];
    assert!(is_skeptical_accepted(&none, &Argument::new("a", false)));
    assert!(!is_credulous_accepted(&none, &Argument::new("a", false)));
}

#[test]
fn answers_of_the_solver() {
    let assign = Command::AssignExternal {
        target: Target::Attack { from: String::from("a"), to: String::from("b") },
        truth: true,
    };
    let ground = Command::Ground { parts: vec![String::from("base")] };
    assert_eq!(acknowledge(&assign, Reply::Done), Ok(()));
    assert_eq!(acknowledge(&ground, Reply::Done), Ok(()));
    assert_eq!(
        acknowledge(&assign, Reply::UnknownSymbol),
        Err(Error::SymbolNotFound(Target::Attack {
            from: String::from("a"),
            to: String::from("b")
        }))
    );
    assert_eq!(
        acknowledge(&ground, Reply::UnknownSymbol),
        Err(Error::EngineFault(String::from(
            "the solver misses a symbol that the command does not name"
        )))
    );
    assert_eq!(
        acknowledge(&assign, Reply::Fault(String::from("no memory"))),
        Err(Error::EngineFault(String::from("no memory")))
    );
}
