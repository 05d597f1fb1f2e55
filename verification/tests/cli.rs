use dasp::cli::{CliTask, Dynamics, Problem};
use dasp::input::{accept, update_line, PathOrStdin};
use dasp::semantics::{Admissible, Complete, ConflictFree, Ground, Kind, Semantics, Stable};

#[test]
fn tasks_say_what_is_asked() {
    let table = [
        (CliTask::CeAd, Problem::CountExtensions, Kind::Admissible, Dynamics::No),
        (CliTask::CeAdD, Problem::CountExtensions, Kind::Admissible, Dynamics::Yes),
        (CliTask::CeCo, Problem::CountExtensions, Kind::Complete, Dynamics::No),
        (CliTask::CeCoD, Problem::CountExtensions, Kind::Complete, Dynamics::Yes),
        (CliTask::CeSt, Problem::CountExtensions, Kind::Stable, Dynamics::No),
        (CliTask::CeStD, Problem::CountExtensions, Kind::Stable, Dynamics::Yes),
        (CliTask::EeAd, Problem::EnumerateExtensions, Kind::Admissible, Dynamics::No),
        (CliTask::EeAdD, Problem::EnumerateExtensions, Kind::Admissible, Dynamics::Yes),
        (CliTask::EeCo, Problem::EnumerateExtensions, Kind::Complete, Dynamics::No),
        (CliTask::EeCoD, Problem::EnumerateExtensions, Kind::Complete, Dynamics::Yes),
        (CliTask::EeSt, Problem::EnumerateExtensions, Kind::Stable, Dynamics::No),
        (CliTask::EeStD, Problem::EnumerateExtensions, Kind::Stable, Dynamics::Yes),
        (CliTask::SeAd, Problem::SampleExtension, Kind::Admissible, Dynamics::No),
        (CliTask::SeAdD, Problem::SampleExtension, Kind::Admissible, Dynamics::Yes),
        (CliTask::SeCo, Problem::SampleExtension, Kind::Complete, Dynamics::No),
        (CliTask::SeCoD, Problem::SampleExtension, Kind::Complete, Dynamics::Yes),
        (CliTask::SeSt, Problem::SampleExtension, Kind::Stable, Dynamics::No),
        (CliTask::SeStD, Problem::SampleExtension, Kind::Stable, Dynamics::Yes),
    ];
    for (task, problem, kind, dynamics) in table {
        assert_eq!(task.problem(), problem, "{task:?}");
        assert_eq!(task.semantics(), kind, "{task:?}");
        assert_eq!(task.dynamics(), dynamics, "{task:?}");
    }
}

#[test]
fn criteria_carry_their_tags() {
    assert_eq!(ConflictFree::kind(), Kind::ConflictFree);
    assert_eq!(Admissible::kind(), Kind::Admissible);
    assert_eq!(Complete::kind(), Kind::Complete);
    assert_eq!(Stable::kind(), Kind::Stable);
    assert_eq!(Ground::kind(), Kind::Ground);
}

#[test]
fn update_lines_end_at_the_first_empty_line() {
    assert_eq!(update_line("  +arg(a). \n"), Some(String::from("+arg(a).")));
    assert_eq!(update_line("+a b"), Some(String::from("+a b")));
    assert_eq!(update_line("\t x \r\n"), Some(String::from("x")));
    assert_eq!(update_line(""), None);
    assert_eq!(update_line("   \t\r\n"), None);
    assert_eq!(accept(String::new()), None);
    assert_eq!(accept(String::from(" ")), Some(String::from(" ")));
    let lines = ["+arg(a).", " -arg(a). ", "", "+arg(b)."];
    let read: Vec<String> = lines.iter().map_while(|line| update_line(line)).collect();
    assert_eq!(read, vec![String::from("+arg(a)."), String::from("-arg(a).")]);
}

#[test]
fn a_dash_names_the_standard_input() {
    assert_eq!(PathOrStdin::parse("-"), PathOrStdin::Stdin);
    assert_eq!(PathOrStdin::parse("updates.apxm"), PathOrStdin::Path(String::from("updates.apxm")));
    assert_eq!(PathOrStdin::parse("--"), PathOrStdin::Path(String::from("--")));
    assert_eq!(PathOrStdin::parse(""), PathOrStdin::Path(String::new()));
    assert_eq!(PathOrStdin::Stdin.argument(), "-");
    assert_eq!(PathOrStdin::Path(String::from("a/b.tgfm")).argument(), "a/b.tgfm");
}
