use dasp::argumentation_framework::parser::{apx, apxm, parse_apx_tgf, tgf, tgfm};
use dasp::argumentation_framework::symbols::{Argument, Attack};
use dasp::argumentation_framework::Patch;
use dasp::framework::ParserError;

fn arg(name: &str) -> Argument {
    Argument::new(name, false)
}

fn opt_arg(name: &str) -> Argument {
    Argument::new(name, true)
}

fn att(from: &str, to: &str) -> Attack {
    Attack::new(from, to, false)
}

fn opt_att(from: &str, to: &str) -> Attack {
    Attack::new(from, to, true)
}

fn optional_flags(args: &[Argument]) -> Vec<bool> {
    args.iter().map(|a| a.optional).collect()
}

fn attack_flags(attacks: &[Attack]) -> Vec<bool> {
    attacks.iter().map(|a| a.optional).collect()
}

#[test]
fn apx_simple_files() {
    let af = apx::parse_file(r#"arg(some1).arg(some2). att(some1, some2)."#).unwrap();
    assert_eq! {
        af,
        (   vec![arg("some1"), arg("some2")],
            vec![att("some1", "some2")],
        )
    }

    let af = apx::parse_file(
        r#"
                arg(a1).
                arg(a2).
                arg(a3).
                arg(a4).
                att(a2, a3).
                att (a3,a1) .
                opt(arg(a2)).
                opt(att(a2,a3)) .
            "#,
    )
    .unwrap();
    assert_eq! {
        af,
        ( vec![arg("a1"), opt_arg("a2"), arg("a3"), arg("a4")],
          vec![opt_att("a2", "a3"), att("a3", "a1")],
        )
    }
    assert_eq!(optional_flags(&af.0), vec![false, true, false, false]);
    assert_eq!(attack_flags(&af.1), vec![true, false]);

    let af = apx::parse_file(
        r#"
                arg(1).
                arg(2).
                arg(3).
                arg(4).
                att(2, 3).
                att (3,1) .
            "#,
    )
    .unwrap();
    assert_eq! {
        af,
        ( vec![arg("1"), arg("2"), arg("3"), arg("4")],
          vec![att("2", "3"), att("3", "1")],
        )
    }
}

#[test]
fn basic_updates() {
    let patches = apxm::parse_line("+att(a1,a3).").unwrap();
    assert_eq!(patches, vec![Patch::EnableAttack(att("a1", "a3"))]);

    let patches = apxm::parse_line("-att(a2, a1).").unwrap();
    assert_eq!(patches, vec![Patch::DisableAttack(att("a2", "a1"))]);

    let patches = apxm::parse_line("+arg(a4):att(a4, a1):att(a2,a4).").unwrap();
    assert_eq!(
        patches,
        vec![
            Patch::EnableArgument(arg("a4")),
            Patch::EnableAttack(att("a4", "a1")),
            Patch::EnableAttack(att("a2", "a4"))
        ]
    );

    let patches = apxm::parse_line("-arg(a3).").unwrap();
    assert_eq!(patches, vec![Patch::DisableArgument(arg("a3"))]);
}

#[test]
fn mod_simple_apx_tgf_files() {
    let af = parse_apx_tgf(r#"arg(a1).arg(b3)."#).unwrap();
    assert_eq!(af, (vec![arg("a1"), arg("b3")], vec![],));

    let af = parse_apx_tgf(
        r#"1
2
#
2 1"#,
    )
    .unwrap();
    assert_eq!(af, (vec![arg("1"), arg("2")], vec![att("2", "1")],));
}

#[test]
fn tgf_simple_files() {
    let af = tgf::parse_file(
        r#"a1
a2
a3?
a4
#
a1 a2?
a1 a3"#,
    )
    .unwrap();
    assert_eq! {
        af,
        (
            vec![arg("a1"), arg("a2"), opt_arg("a3"), arg("a4")],
            vec![opt_att("a1", "a2"), att("a1", "a3")]
        )
    }
    assert_eq!(optional_flags(&af.0), vec![false, false, true, false]);
    assert_eq!(attack_flags(&af.1), vec![true, false]);
}

#[test]
fn tgfm_simple_patches() {
    let patches = tgfm::parse_line("+1 3").unwrap();
    assert_eq!(patches, vec![Patch::EnableAttack(att("1", "3"))]);

    let patches = tgfm::parse_line("-2 1").unwrap();
    assert_eq!(patches, vec![Patch::DisableAttack(att("2", "1"))]);

    let patches = tgfm::parse_line("+4:4 1:2 4").unwrap();
    assert_eq!(
        patches,
        vec![
            Patch::EnableArgument(arg("4")),
            Patch::EnableAttack(att("4", "1")),
            Patch::EnableAttack(att("2", "4"))
        ]
    );

    let patches = tgfm::parse_line("-3").unwrap();
    assert_eq!(patches, vec![Patch::DisableArgument(arg("3"))]);
}

#[test]
fn apx_reports_the_unexpected_token() {
    let error = apx::parse_file("arg(a1). att(a1 a2).").unwrap_err();
    assert_eq!(
        error,
        ParserError::UnexpectedToken { start: 16, end: 18, text: String::from("a2") }
    );
    let error = apx::parse_file("arg(a1). att(a1,").unwrap_err();
    assert_eq!(error, ParserError::UnexpectedEndOfInput);
    let error = apx::parse_file("arg(a1). foo(a1).").unwrap_err();
    assert_eq!(
        error,
        ParserError::UnexpectedToken { start: 9, end: 12, text: String::from("foo") }
    );
    let error = apx::parse_file("arg(A1).").unwrap_err();
    assert_eq!(error, ParserError::UnexpectedToken { start: 4, end: 5, text: String::from("A") });
}

#[test]
fn apx_optional_mark_needs_a_declaration() {
    let error = apx::parse_file("arg(a1). opt(arg(a2)).").unwrap_err();
    assert_eq!(error, ParserError::OptionalArgumentNotFound { arg_id: String::from("a2") });
    let error = apx::parse_file("arg(a1). opt(att(a1,a1)).").unwrap_err();
    assert_eq!(
        error,
        ParserError::OptionalAttackNotFound { from: String::from("a1"), to: String::from("a1") }
    );
    let af = apx::parse_file("opt(arg(a1)). arg(a1).").unwrap();
    assert_eq!(optional_flags(&af.0), vec![true]);
}

#[test]
fn apx_keywords_are_no_names() {
    assert!(apx::parse_file("arg(arg).").is_err());
    let af = apx::parse_file("arg(arg1). arg(option). arg(a-b_C).").unwrap();
    assert_eq!(af.0, vec![arg("arg1"), arg("option"), arg("a-b_C")]);
}

#[test]
fn tgf_needs_the_separator() {
    assert_eq!(tgf::parse_file("a1\na2").unwrap_err(), ParserError::UnexpectedEndOfInput);
    assert_eq!(tgf::parse_file("").unwrap_err(), ParserError::UnexpectedEndOfInput);
    let af = tgf::parse_file("#").unwrap();
    assert_eq!(af, (vec![], vec![]));
}

#[test]
fn tgf_mark_must_touch_the_name() {
    let error = tgf::parse_file("a1\n?\n#").unwrap_err();
    assert_eq!(error, ParserError::UnexpectedToken { start: 3, end: 4, text: String::from("?") });
    let error = tgf::parse_file("a1\n#\na1 a1 ?").unwrap_err();
    assert_eq!(error, ParserError::UnexpectedToken { start: 10, end: 11, text: String::from(" ") });
}

#[test]
fn tgfm_line_ends() {
    assert_eq!(tgfm::parse_line("+").unwrap(), vec![]);
    assert_eq!(tgfm::parse_line("+a1\n").unwrap(), vec![Patch::EnableArgument(arg("a1"))]);
    assert_eq!(tgfm::parse_line("+a1:").unwrap(), vec![Patch::EnableArgument(arg("a1"))]);
    assert_eq!(tgfm::parse_line("+a1:\n").unwrap_err(), ParserError::UnexpectedEndOfInput);
    assert_eq!(tgfm::parse_line("+a1 ").unwrap_err(), ParserError::UnexpectedEndOfInput);
    assert_eq!(tgfm::parse_line("").unwrap_err(), ParserError::UnexpectedEndOfInput);
    assert_eq!(
        tgfm::parse_line("a1").unwrap_err(),
        ParserError::UnexpectedToken { start: 0, end: 2, text: String::from("a1") }
    );
}

#[test]
fn apxm_reads_up_to_the_period() {
    let patches = apxm::parse_line("+arg(a1). whatever").unwrap();
    assert_eq!(patches, vec![Patch::EnableArgument(arg("a1"))]);
    assert_eq!(apxm::parse_line("+arg(a1)").unwrap_err(), ParserError::UnexpectedEndOfInput);
    assert_eq!(
        apxm::parse_line("arg(a1).").unwrap_err(),
        ParserError::UnexpectedToken { start: 0, end: 3, text: String::from("arg") }
    );
    assert_eq!(
        apxm::parse_line("+opt(a1).").unwrap_err(),
        ParserError::UnexpectedToken { start: 1, end: 4, text: String::from("opt") }
    );
}
