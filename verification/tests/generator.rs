use dasp::argumentation_framework::parser::{apx, tgf};
use dasp::argumentation_framework::symbols::{Argument as Named, Attack as NamedAttack, State};
use dasp::argumentation_framework::Patch;
use dasp::generator::types::{Argument, Attack};
use dasp::generator::{Config, Format, Probability, UpdateKind, UpdateLine, AF};
use rand::rngs::SmallRng;
use rand::SeedableRng;

fn always() -> Probability {
    Probability::new(1, 1).unwrap()
}

fn never() -> Probability {
    Probability::new(0, 1).unwrap()
}

fn half() -> Probability {
    Probability::new(1, 2).unwrap()
}

fn sample() -> AF {
    AF {
        args: vec![
            (Argument::new(0, false), State::Alive),
            (Argument::new(1, true), State::Dead),
            (Argument::new(2, true), State::Alive),
        ],
        atts: vec![
            (Attack::from_raw(0, 1, true), State::Dead),
            (Attack::from_raw(1, 2, false), State::Alive),
            (Attack::from_raw(2, 0, true), State::Dead),
            (Attack::from_raw(2, 2, true), State::Alive),
        ],
    }
}

#[test]
fn names_carry_the_prefix_and_the_number() {
    assert_eq!(Argument::new(0, false).name(), "a0");
    assert_eq!(Argument::new(7, true).name(), "a7");
    assert_eq!(Argument::new(10, true).name(), "a10");
    assert_eq!(Argument::new(1234567890, true).name(), "a1234567890");
    assert_eq!(Argument::new(usize::MAX, true).name(), format!("a{}", usize::MAX));
    let attack = Attack::from_raw(12, 305, false);
    assert_eq!(attack.from(), "a12");
    assert_eq!(attack.to(), "a305");
}

#[test]
fn numbered_arguments_compare_by_number() {
    assert_eq!(Argument::new(3, false), Argument::new(3, true));
    assert_ne!(Argument::new(3, false), Argument::new(4, false));
    assert!(Argument::new(3, true) < Argument::new(4, false));
    assert!(Argument::new(5, false) > Argument::new(4, true));
    assert_eq!(Attack::from_raw(1, 2, true), Attack::from_raw(1, 2, false));
    assert_ne!(Attack::from_raw(1, 2, true), Attack::from_raw(2, 1, true));
    let moved = Argument::new(3, true) + 4;
    assert_eq!(moved.id, 7);
    assert!(moved.optional);
    let first = Argument::default();
    assert_eq!(first.id, 1);
    assert!(!first.optional);
    assert!(Attack::from_raw(1, 2, false).contains(&Argument::new(2, false)));
    assert!(Attack::from_raw(1, 2, false).contains(&Argument::new(1, true)));
    assert!(!Attack::from_raw(1, 2, false).contains(&Argument::new(3, false)));
}

#[test]
fn file_endings() {
    assert_eq!(Format::Apx.as_initial_file_ending(), "apx");
    assert_eq!(Format::Tgf.as_initial_file_ending(), "tgf");
    assert_eq!(Format::Apx.as_update_file_ending(), "apxm");
    assert_eq!(Format::Tgf.as_update_file_ending(), "tgfm");
    assert_eq!(Format::default(), Format::Tgf);
}

#[test]
fn update_lines_in_both_formats() {
    let argument = Argument::new(4, true);
    let attacks = vec![Attack::from_raw(4, 1, true), Attack::from_raw(2, 4, true)];
    let line = UpdateLine::EnableArgument(argument, attacks);
    assert_eq!(line.format(Format::Apx), "+arg(a4):att(a4, a1):att(a2, a4).");
    assert_eq!(line.format(Format::Tgf), "+a4:a4 a1:a2 a4");
    let line = UpdateLine::EnableArgument(argument, vec![]);
    assert_eq!(line.format(Format::Apx), "+arg(a4).");
    assert_eq!(line.format(Format::Tgf), "+a4");
    let line = UpdateLine::DisableArgument(argument);
    assert_eq!(line.format(Format::Apx), "-arg(a4).");
    assert_eq!(line.format(Format::Tgf), "-a4");
    let line = UpdateLine::EnableAttack(Attack::from_raw(1, 3, true));
    assert_eq!(line.format(Format::Apx), "+att(a1, a3).");
    assert_eq!(line.format(Format::Tgf), "+a1 a3");
    let line = UpdateLine::DisableAttack(Attack::from_raw(2, 1, true));
    assert_eq!(line.format(Format::Apx), "-att(a2, a1).");
    assert_eq!(line.format(Format::Tgf), "-a2 a1");
}

#[test]
fn generated_lines_are_read_back_as_patches() {
    let line = UpdateLine::EnableArgument(
        Argument::new(4, true),
        vec![Attack::from_raw(4, 1, true), Attack::from_raw(2, 4, true)],
    );
    let expected = vec![
        Patch::EnableArgument(Named::new("a4", false)),
        Patch::EnableAttack(NamedAttack::new("a4", "a1", false)),
        Patch::EnableAttack(NamedAttack::new("a2", "a4", false)),
    ];
    assert_eq!(Patch::parse_line(&line.format(Format::Apx)).unwrap(), expected);
    assert_eq!(Patch::parse_line(&line.format(Format::Tgf)).unwrap(), expected);
}

#[test]
fn framework_texts() {
    let af = sample();
    assert_eq!(
        af.format_framework(Format::Apx, false),
        "arg(a0).\narg(a1). opt(arg(a1)).\narg(a2). opt(arg(a2)).\n\
         att(a0, a1). opt(att(a0, a1)).\natt(a1, a2).\natt(a2, a0). opt(att(a2, a0)).\n\
         att(a2, a2). opt(att(a2, a2)).\n"
    );
    assert_eq!(
        af.format_framework(Format::Apx, true),
        "arg(a0).\narg(a2).\natt(a1, a2).\natt(a2, a2).\n"
    );
    assert_eq!(
        af.format_framework(Format::Tgf, false),
        "a0\na1?\na2?\n#\na0 a1?\na1 a2\na2 a0?\na2 a2?\n"
    );
    assert_eq!(af.format_framework(Format::Tgf, true), "a0\na2\n#\na1 a2\na2 a2\n");
    let empty = AF { args: vec![], atts: vec![] };
    assert_eq!(empty.format_framework(Format::Apx, false), "");
    assert_eq!(empty.format_framework(Format::Tgf, false), "#\n");
}

#[test]
fn generated_texts_are_frameworks() {
    let af = sample();
    let explicit = apx::parse_file(&af.format_framework(Format::Apx, false)).unwrap();
    let terse = tgf::parse_file(&af.format_framework(Format::Tgf, false)).unwrap();
    assert_eq!(explicit, terse);
    assert_eq!(explicit.0.len(), 3);
    assert_eq!(explicit.1.len(), 4);
    assert_eq!(
        explicit.0.iter().map(|a| a.optional).collect::<Vec<_>>(),
        vec![false, true, true]
    );
    assert_eq!(
        terse.1.iter().map(|a| a.optional).collect::<Vec<_>>(),
        vec![true, false, true, true]
    );
}

fn states(af: &AF) -> (Vec<State>, Vec<State>) {
    (
        af.args.iter().map(|(_, state)| *state).collect(),
        af.atts.iter().map(|(_, state)| *state).collect(),
    )
}

#[test]
fn apply_update_switches_the_named_elements() {
    let mut af = sample();
    af.apply_update(&UpdateLine::EnableArgument(
        Argument::new(1, true),
        vec![Attack::from_raw(0, 1, true), Attack::from_raw(9, 9, true)],
    ));
    assert_eq!(
        states(&af),
        (
            vec![State::Alive, State::Alive, State::Alive],
            vec![State::Alive, State::Alive, State::Dead, State::Alive]
        )
    );
    af.apply_update(&UpdateLine::DisableArgument(Argument::new(2, true)));
    af.apply_update(&UpdateLine::EnableAttack(Attack::from_raw(2, 0, true)));
    af.apply_update(&UpdateLine::DisableAttack(Attack::from_raw(2, 2, true)));
    assert_eq!(
        states(&af),
        (
            vec![State::Alive, State::Alive, State::Dead],
            vec![State::Alive, State::Alive, State::Alive, State::Dead]
        )
    );
}

#[test]
fn kinds_on_offer() {
    let af = sample();
    assert_eq!(
        UpdateLine::kinds(&af.args, &af.atts),
        vec![
            UpdateKind::EnableArgument,
            UpdateKind::EnableAttack,
            UpdateKind::DisableArgument,
            UpdateKind::DisableAttack
        ]
    );
    let fixed = AF {
        args: vec![(Argument::new(0, false), State::Alive)],
        atts: vec![(Attack::from_raw(0, 0, false), State::Alive)],
    };
    assert_eq!(UpdateLine::kinds(&fixed.args, &fixed.atts), vec![]);
    let mut rng = SmallRng::seed_from_u64(1);
    assert!(UpdateLine::generate(&mut rng, &fixed.args, &fixed.atts, &half()).is_none());
}

#[test]
fn keep_flagged_keeps_the_heads() {
    let candidates = sample().atts;
    let kept = UpdateLine::keep_flagged(&candidates, &vec![true, false, false, true]);
    assert_eq!(kept, vec![Attack::from_raw(0, 1, true), Attack::from_raw(2, 2, true)]);
    assert_eq!(UpdateLine::keep_flagged(&candidates, &vec![false; 4]), vec![]);
}

#[test]
fn generated_updates_are_legal() {
    for seed in 0..50u64 {
        let mut rng = SmallRng::seed_from_u64(seed);
        let af = sample();
        match UpdateLine::generate(&mut rng, &af.args, &af.atts, &half()).unwrap() {
            UpdateLine::EnableArgument(argument, attacks) => {
                assert_eq!(argument.id, 1);
                for attack in attacks {
                    assert!(attack.contains(&argument));
                    assert!(af.atts.iter().any(|(a, s)| *a == attack && *s == State::Dead));
                }
            }
            UpdateLine::DisableArgument(argument) => {
                assert_eq!(argument.id, 2);
                assert!(argument.optional);
            }
            UpdateLine::EnableAttack(attack) => {
                assert!(af.atts.iter().any(|(a, s)| *a == attack && *s == State::Dead));
            }
            UpdateLine::DisableAttack(attack) => {
                assert_eq!(attack, Attack::from_raw(2, 2, true));
            }
        }
    }
}

#[test]
fn enabling_brings_all_or_none_of_the_attacks() {
    let af = AF {
        args: vec![(Argument::new(0, true), State::Dead), (Argument::new(1, false), State::Alive)],
        atts: vec![],
    };
    let with_attacks = AF {
        args: vec![(Argument::new(0, true), State::Dead)],
        atts: vec![
            (Attack::from_raw(0, 0, true), State::Dead),
            (Attack::from_raw(1, 1, true), State::Dead),
        ],
    };
    let mut rng = SmallRng::seed_from_u64(7);
    match UpdateLine::generate(&mut rng, &af.args, &af.atts, &always()).unwrap() {
        UpdateLine::EnableArgument(argument, attacks) => {
            assert_eq!(argument.id, 0);
            assert!(attacks.is_empty());
        }
        other => panic!("unexpected line {:?}", other),
    }
    for seed in 0..20u64 {
        let mut rng = SmallRng::seed_from_u64(seed);
        if let UpdateLine::EnableArgument(_, attacks) =
            UpdateLine::generate(&mut rng, &with_attacks.args, &with_attacks.atts, &always()).unwrap()
        {
            assert_eq!(attacks, vec![Attack::from_raw(0, 0, true)]);
        }
        let mut rng = SmallRng::seed_from_u64(seed);
        if let UpdateLine::EnableArgument(_, attacks) =
            UpdateLine::generate(&mut rng, &with_attacks.args, &with_attacks.atts, &never()).unwrap()
        {
            assert!(attacks.is_empty());
        }
    }
}

fn config(arg_count: usize, nr_of_updates: usize) -> Config {
    Config {
        arg_count,
        nr_of_updates,
        format: Format::Apx,
        edge: half(),
        edge_when_adding_arg: half(),
        arg_optional: half(),
        attack_optional: half(),
        output_intermediates: true,
    }
}

#[test]
fn generated_frameworks_are_fresh() {
    let mut rng = SmallRng::seed_from_u64(3);
    let af = AF::generate(&mut rng, &config(6, 0));
    assert_eq!(af.args.len(), 6);
    for (i, (argument, state)) in af.args.iter().enumerate() {
        assert_eq!(argument.id, i);
        assert_eq!(*state == State::Dead, argument.optional);
    }
    let mut last = None;
    for (attack, state) in &af.atts {
        assert!(attack.from < 6 && attack.to < 6);
        assert_eq!(*state == State::Dead, attack.optional);
        assert!(last < Some((attack.from, attack.to)));
        last = Some((attack.from, attack.to));
    }
    let all = Config { edge: always(), arg_optional: never(), attack_optional: always(), ..config(3, 0) };
    let af = AF::generate(&mut rng, &all);
    assert_eq!(af.atts.len(), 9);
    assert!(af.args.iter().all(|(a, s)| !a.optional && *s == State::Alive));
    assert!(af.atts.iter().all(|(a, s)| a.optional && *s == State::Dead));
    let none = Config { edge: never(), ..config(3, 0) };
    assert!(AF::generate(&mut rng, &none).atts.is_empty());
}

#[test]
fn generated_updates_are_applied_and_written() {
    let mut rng = SmallRng::seed_from_u64(11);
    let setup = Config { arg_optional: always(), attack_optional: always(), ..config(4, 12) };
    let mut af = AF::generate(&mut rng, &setup);
    let mut replay = af.clone();
    let (updates, texts) = af.generate_apply_updates(&mut rng, &setup);
    assert_eq!(updates.len(), 12);
    assert_eq!(texts.len(), 13);
    assert_eq!(texts[0], replay.format_framework(Format::Apx, true));
    for (update, text) in updates.iter().zip(texts.iter().skip(1)) {
        replay.apply_update(update);
        assert_eq!(*text, replay.format_framework(Format::Apx, true));
    }
    assert_eq!(states(&replay), states(&af));

    let quiet = Config { output_intermediates: false, ..setup };
    let (updates, texts) = af.generate_apply_updates(&mut rng, &quiet);
    assert_eq!(updates.len(), 12);
    assert!(texts.is_empty());

    let mut fixed = AF { args: vec![(Argument::new(0, false), State::Alive)], atts: vec![] };
    let (updates, texts) = fixed.generate_apply_updates(&mut rng, &setup);
    assert!(updates.is_empty());
    assert_eq!(texts, vec![String::from("arg(a0).\n")]);
}

#[test]
fn file_names() {
    assert_eq!(Format::Apx.initial_file_suffix(), "-initial.apx");
    assert_eq!(Format::Tgf.initial_file_suffix(), "-initial.tgf");
    assert_eq!(Format::Apx.update_file_suffix(), "-updates.apxm");
    assert_eq!(Format::Tgf.update_file_suffix(), "-updates.tgfm");
    assert_eq!(Format::Apx.intermediate_file_suffix(0), "-intermediate-0.apx");
    assert_eq!(Format::Tgf.intermediate_file_suffix(17), "-intermediate-17.tgf");
}

#[test]
fn probabilities_are_ratios_up_to_one() {
    assert!(Probability::new(0, 1).is_some());
    assert!(Probability::new(3, 3).is_some());
    assert!(Probability::new(1, 0).is_none());
    assert!(Probability::new(4, 3).is_none());
    let p = Probability::new(1, 4).unwrap();
    assert_eq!((p.numerator, p.denominator), (1, 4));
}
