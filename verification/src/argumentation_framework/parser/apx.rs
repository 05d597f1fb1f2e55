//! The explicit framework format.
//!
//! A file is a sequence of statements, each closed by a period:
//! `arg(a).` declares an argument, `att(a,b).` an attack, and `opt(arg(a)).`
//! or `opt(att(a,b)).` marks what another statement declares as optional.
//! Spaces and line breaks between tokens mean nothing.
use vstd::prelude::*;
use vstd::string::StringExecFns;

use crate::argumentation_framework::parser::{
    agreement, expect, fail_at, failure_at, is_word, lemma_agreement_bounds, lex, lexemes, stands,
    text, text_of, within, Dialect, Lexeme, PieceKind, RawArgument, RawAttack,
};
use crate::argumentation_framework::symbols::{
    argument_views, attack_views, Argument, ArgumentView, Attack, AttackView,
};
use crate::framework::{Failure, ParserError};
use crate::text::to_chars;

verus! {

/// The tokens of the explicit framework format.
#[derive(Debug, Clone, Copy, PartialEq, Eq, Structural)]
pub enum Token {
    /// The word `arg`.
    Arg,
    /// The word `att`.
    Attack,
    Comma,
    /// A character that begins no token.
    Error,
    LeftParen,
    /// The word `opt`.
    Optional,
    Period,
    RightParen,
    /// Any other word: a name.
    Text,
}

impl Dialect for Token {
    open spec fn classify(kind: PieceKind, text: Seq<char>) -> Option<Self> {
        match kind {
            PieceKind::Word => Some(
                if text == "arg"@ {
                    Token::Arg
                } else if text == "att"@ {
                    Token::Attack
                } else if text == "opt"@ {
                    Token::Optional
                } else {
                    Token::Text
                },
            ),
            PieceKind::Spaces | PieceKind::Breaks => None,
            PieceKind::Other => Some(
                if text.len() == 0 {
                    Token::Error
                } else if text[0] == ',' {
                    Token::Comma
                } else if text[0] == '(' {
                    Token::LeftParen
                } else if text[0] == '.' {
                    Token::Period
                } else if text[0] == ')' {
                    Token::RightParen
                } else {
                    Token::Error
                },
            ),
        }
    }

    fn token_of(kind: PieceKind, chars: &Vec<char>, start: usize, end: usize) -> (token: Option<Self>) {
        match kind {
            PieceKind::Word => Some(
                if is_word(chars, start, end, "arg") {
                    Token::Arg
                } else if is_word(chars, start, end, "att") {
                    Token::Attack
                } else if is_word(chars, start, end, "opt") {
                    Token::Optional
                } else {
                    Token::Text
                },
            ),
            PieceKind::Spaces | PieceKind::Breaks => None,
            PieceKind::Other => Some(
                if start == end {
                    Token::Error
                } else if chars[start] == ',' {
                    Token::Comma
                } else if chars[start] == '(' {
                    Token::LeftParen
                } else if chars[start] == '.' {
                    Token::Period
                } else if chars[start] == ')' {
                    Token::RightParen
                } else {
                    Token::Error
                },
            ),
        }
    }

    fn same_as(&self, other: &Self) -> (same: bool) {
        *self == *other
    }
}

/// What a statement marks as optional.
pub enum Marker {
    Argument { id: Seq<char> },
    Attack { from: Seq<char>, to: Seq<char> },
}

/// What the statements read so far declare and mark.
pub struct Parsed {
    pub args: Seq<ArgumentView>,
    pub attacks: Seq<AttackView>,
    pub markers: Seq<Marker>,
}

/// What has to follow `arg`.
pub open spec fn after_arg() -> Seq<Token> {
    seq![Token::LeftParen, Token::Text, Token::RightParen, Token::Period]
}

/// What has to follow `att`.
pub open spec fn after_att() -> Seq<Token> {
    seq![
        Token::LeftParen,
        Token::Text,
        Token::Comma,
        Token::Text,
        Token::RightParen,
        Token::Period,
    ]
}

/// What has to follow `opt` where an argument is marked.
pub open spec fn after_opt_arg() -> Seq<Token> {
    seq![
        Token::LeftParen,
        Token::Arg,
        Token::LeftParen,
        Token::Text,
        Token::RightParen,
        Token::RightParen,
        Token::Period,
    ]
}

/// What has to follow `opt` where an attack is marked.
pub open spec fn after_opt_att() -> Seq<Token> {
    seq![
        Token::LeftParen,
        Token::Attack,
        Token::LeftParen,
        Token::Text,
        Token::Comma,
        Token::Text,
        Token::RightParen,
        Token::RightParen,
        Token::Period,
    ]
}

/// Whether the statement that begins with `opt` at the place `at` marks an
/// attack: the word after the parenthesis decides.
pub open spec fn marks_attack(lexemes: Seq<Lexeme<Token>>, at: int) -> bool {
    at + 2 < lexemes.len() && lexemes[at + 2].token == Token::Attack
}

/// What has to follow the first token of the statement at the place `at`.
pub open spec fn rest_of_statement(lexemes: Seq<Lexeme<Token>>, at: int) -> Seq<Token> {
    match lexemes[at].token {
        Token::Arg => after_arg(),
        Token::Attack => after_att(),
        _ => if marks_attack(lexemes, at) {
            after_opt_att()
        } else {
            after_opt_arg()
        },
    }
}

/// What is known once the statement at the place `at` has been read.
pub open spec fn record(s: Seq<char>, lexemes: Seq<Lexeme<Token>>, at: int, so_far: Parsed) -> Parsed {
    match lexemes[at].token {
        Token::Arg => Parsed {
            args: so_far.args.push(ArgumentView { id: text(s, lexemes[at + 2]), optional: false }),
            ..so_far
        },
        Token::Attack => Parsed {
            attacks: so_far.attacks.push(
                AttackView {
                    from: text(s, lexemes[at + 2]),
                    to: text(s, lexemes[at + 4]),
                    optional: false,
                },
            ),
            ..so_far
        },
        _ => if marks_attack(lexemes, at) {
            Parsed {
                markers: so_far.markers.push(
                    Marker::Attack { from: text(s, lexemes[at + 4]), to: text(s, lexemes[at + 6]) },
                ),
                ..so_far
            }
        } else {
            Parsed {
                markers: so_far.markers.push(Marker::Argument { id: text(s, lexemes[at + 4]) }),
                ..so_far
            }
        },
    }
}

/// Reads the statements from the place `at` on.
pub open spec fn statements_from(
    s: Seq<char>,
    lexemes: Seq<Lexeme<Token>>,
    at: int,
    so_far: Parsed,
) -> Result<Parsed, Failure>
    decreases lexemes.len() - at,
{
    if !(0 <= at < lexemes.len()) {
        Ok(so_far)
    } else if !(lexemes[at].token == Token::Arg || lexemes[at].token == Token::Attack
        || lexemes[at].token == Token::Optional) {
        Err(failure_at(s, lexemes, at))
    } else {
        let rest = rest_of_statement(lexemes, at);
        if stands(lexemes, at + 1, rest) && at + 1 + rest.len() <= lexemes.len() {
            statements_from(s, lexemes, at + 1 + rest.len(), record(s, lexemes, at, so_far))
        } else {
            Err(failure_at(s, lexemes, at + 1 + agreement(lexemes, at + 1, rest)))
        }
    }
}

/// Whether `i` is the place of the first argument named `id`.
pub open spec fn first_argument(args: Seq<ArgumentView>, id: Seq<char>, i: int) -> bool {
    &&& 0 <= i < args.len()
    &&& args[i].id == id
    &&& forall|j: int| 0 <= j < i ==> (#[trigger] args[j]).id != id
}

/// Whether `i` is the place of the first attack from `from` to `to`.
pub open spec fn first_attack(attacks: Seq<AttackView>, from: Seq<char>, to: Seq<char>, i: int) -> bool {
    &&& 0 <= i < attacks.len()
    &&& attacks[i].from == from && attacks[i].to == to
    &&& forall|j: int| 0 <= j < i ==> !((#[trigger] attacks[j]).from == from && attacks[j].to == to)
}

/// Applies the optional marks in the order of their statements. A mark goes
/// to the first element that it names; one that names none is an error.
pub open spec fn apply_markers(
    args: Seq<ArgumentView>,
    attacks: Seq<AttackView>,
    markers: Seq<Marker>,
) -> Result<(Seq<ArgumentView>, Seq<AttackView>), Failure>
    decreases markers.len(),
{
    if markers.len() == 0 {
        Ok((args, attacks))
    } else {
        match markers[0] {
            Marker::Argument { id } => {
                if exists|i: int| first_argument(args, id, i) {
                    let i = choose|i: int| first_argument(args, id, i);
                    apply_markers(
                        args.update(i, ArgumentView { id, optional: true }),
                        attacks,
                        markers.drop_first(),
                    )
                } else {
                    Err(Failure::OptionalArgumentNotFound { arg_id: id })
                }
            },
            Marker::Attack { from, to } => {
                if exists|i: int| first_attack(attacks, from, to, i) {
                    let i = choose|i: int| first_attack(attacks, from, to, i);
                    apply_markers(
                        args,
                        attacks.update(i, AttackView { from, to, optional: true }),
                        markers.drop_first(),
                    )
                } else {
                    Err(Failure::OptionalAttackNotFound { from, to })
                }
            },
        }
    }
}

/// What a text in the explicit framework format declares: the arguments and
/// the attacks in the order of their statements, each optional if some
/// statement marks it so.
pub open spec fn parse(s: Seq<char>) -> Result<(Seq<ArgumentView>, Seq<AttackView>), Failure> {
    match statements_from(
        s,
        lexemes::<Token>(s),
        0,
        Parsed { args: Seq::empty(), attacks: Seq::empty(), markers: Seq::empty() },
    ) {
        Ok(parsed) => apply_markers(parsed.args, parsed.attacks, parsed.markers),
        Err(failure) => Err(failure),
    }
}

enum Mark {
    Argument(RawArgument),
    Attack(RawAttack),
}

impl View for Mark {
    type V = Marker;

    closed spec fn view(&self) -> Marker {
        match self {
            Mark::Argument(raw) => Marker::Argument { id: raw.id@ },
            Mark::Attack(raw) => Marker::Attack { from: raw.from@, to: raw.to@ },
        }
    }
}

spec fn mark_views(marks: Seq<Mark>) -> Seq<Marker> {
    Seq::new(marks.len(), |i: int| marks[i]@)
}

fn mark_argument(args: &mut Vec<Argument>, id: &String) -> (found: bool)
    ensures
        found == exists|i: int| first_argument(argument_views(old(args)@), id@, i),
        found ==> argument_views(final(args)@) == argument_views(old(args)@).update(
            choose|i: int| first_argument(argument_views(old(args)@), id@, i),
            ArgumentView { id: id@, optional: true },
        ),
        !found ==> final(args)@ == old(args)@,
{
    let mut i: usize = 0;
    while i < args.len()
        invariant
            i <= args.len(),
            args@ == old(args)@,
            forall|j: int| 0 <= j < i ==> (#[trigger] argument_views(args@)[j]).id != id@,
        decreases args.len() - i,
    {
        if args[i].id == *id {
            proof {
                let views = argument_views(args@);
                assert(first_argument(views, id@, i as int));
                let chosen = choose|k: int| first_argument(views, id@, k);
                assert(chosen == i);
            }
            args.set(i, Argument { id: id.clone(), optional: true });
            proof {
                assert(argument_views(args@) =~= argument_views(old(args)@).update(
                    i as int,
                    ArgumentView { id: id@, optional: true },
                ));
            }
            return true;
        }
        i += 1;
    }
    proof {
        let views = argument_views(args@);
        assert forall|k: int| !first_argument(views, id@, k) by {
            if 0 <= k < views.len() {
                assert(views[k].id != id@);
            }
        }
    }
    false
}

fn mark_attack(attacks: &mut Vec<Attack>, from: &String, to: &String) -> (found: bool)
    ensures
        found == exists|i: int| first_attack(attack_views(old(attacks)@), from@, to@, i),
        found ==> attack_views(final(attacks)@) == attack_views(old(attacks)@).update(
            choose|i: int| first_attack(attack_views(old(attacks)@), from@, to@, i),
            AttackView { from: from@, to: to@, optional: true },
        ),
        !found ==> final(attacks)@ == old(attacks)@,
{
    let mut i: usize = 0;
    while i < attacks.len()
        invariant
            i <= attacks.len(),
            attacks@ == old(attacks)@,
            forall|j: int|
                0 <= j < i ==> !((#[trigger] attack_views(attacks@)[j]).from == from@
                    && attack_views(attacks@)[j].to == to@),
        decreases attacks.len() - i,
    {
        if attacks[i].from == *from && attacks[i].to == *to {
            proof {
                let views = attack_views(attacks@);
                assert(first_attack(views, from@, to@, i as int));
                let chosen = choose|k: int| first_attack(views, from@, to@, k);
                assert(chosen == i);
            }
            attacks.set(i, Attack { from: from.clone(), to: to.clone(), optional: true });
            proof {
                assert(attack_views(attacks@) =~= attack_views(old(attacks)@).update(
                    i as int,
                    AttackView { from: from@, to: to@, optional: true },
                ));
            }
            return true;
        }
        i += 1;
    }
    proof {
        let views = attack_views(attacks@);
        assert forall|k: int| !first_attack(views, from@, to@, k) by {
            if 0 <= k < views.len() {
                assert(!(views[k].from == from@ && views[k].to == to@));
            }
        }
    }
    false
}

/// Reads what stands between the parentheses of `arg( .. )`; the opening
/// parenthesis is the token at the place `at`.
fn parse_argument(chars: &Vec<char>, lexemes: &Vec<Lexeme<Token>>, at: usize) -> (raw: RawArgument)
    requires
        within(lexemes@, chars@.len() as int),
        at + 1 < lexemes.len(),
    ensures
        raw.id@ == text(chars@, lexemes@[at + 1]),
{
    RawArgument { id: text_of(chars, &lexemes[at + 1]) }
}

/// Reads what stands between the parentheses of `att( .. )`; the opening
/// parenthesis is the token at the place `at`.
fn parse_attack(chars: &Vec<char>, lexemes: &Vec<Lexeme<Token>>, at: usize) -> (raw: RawAttack)
    requires
        within(lexemes@, chars@.len() as int),
        at + 3 < lexemes.len(),
    ensures
        raw.from@ == text(chars@, lexemes@[at + 1]),
        raw.to@ == text(chars@, lexemes@[at + 3]),
{
    RawAttack { from: text_of(chars, &lexemes[at + 1]), to: text_of(chars, &lexemes[at + 3]) }
}

/// Reads the statement that begins with `opt` at the place `at`.
fn parse_optional(chars: &Vec<char>, lexemes: &Vec<Lexeme<Token>>, at: usize) -> (outcome: Result<
    Mark,
    ParserError,
>)
    requires
        within(lexemes@, chars@.len() as int),
        at < lexemes.len(),
        lexemes@[at as int].token == Token::Optional,
    ensures
        outcome is Ok <==> stands(lexemes@, at + 1, rest_of_statement(lexemes@, at as int)),
        outcome matches Ok(mark) ==> at + 1 + rest_of_statement(lexemes@, at as int).len()
            <= lexemes.len() && mark@ == record(
            chars@,
            lexemes@,
            at as int,
            Parsed { args: Seq::empty(), attacks: Seq::empty(), markers: Seq::empty() },
        ).markers[0],
        outcome matches Err(error) ==> error@ == failure_at(
            chars@,
            lexemes@,
            at + 1 + agreement(lexemes@, at + 1, rest_of_statement(lexemes@, at as int)),
        ),
{
    if lexemes.len() > 2 && at < lexemes.len() - 2 && lexemes[at + 2].token == Token::Attack {
        let pattern = vec![
            Token::LeftParen,
            Token::Attack,
            Token::LeftParen,
            Token::Text,
            Token::Comma,
            Token::Text,
            Token::RightParen,
            Token::RightParen,
            Token::Period,
        ];
        proof {
            assert(pattern@ =~= after_opt_att());
            lemma_agreement_bounds(lexemes@, at + 1, pattern@);
        }
        expect(chars, lexemes, at + 1, &pattern)?;
        Ok(Mark::Attack(parse_attack(chars, lexemes, at + 3)))
    } else {
        let pattern = vec![
            Token::LeftParen,
            Token::Arg,
            Token::LeftParen,
            Token::Text,
            Token::RightParen,
            Token::RightParen,
            Token::Period,
        ];
        proof {
            assert(pattern@ =~= after_opt_arg());
            lemma_agreement_bounds(lexemes@, at + 1, pattern@);
        }
        expect(chars, lexemes, at + 1, &pattern)?;
        Ok(Mark::Argument(parse_argument(chars, lexemes, at + 3)))
    }
}

/// Reads a framework in the explicit format.
pub fn parse_file(input: &str) -> (outcome: Result<(Vec<Argument>, Vec<Attack>), ParserError>)
    ensures
        match outcome {
            Ok(framework) => parse(input@) == Ok::<_, Failure>(
                (argument_views(framework.0@), attack_views(framework.1@)),
            ),
            Err(error) => parse(input@) == Err::<(Seq<ArgumentView>, Seq<AttackView>), _>(error@),
        },
{
    let chars = to_chars(input);
    let lexemes = lex::<Token>(&chars);
    let mut args: Vec<Argument> = Vec::new();
    let mut attacks: Vec<Attack> = Vec::new();
    let mut optionals: Vec<Mark> = Vec::new();
    let ghost nothing = Parsed { args: Seq::empty(), attacks: Seq::empty(), markers: Seq::empty() };
    let mut at: usize = 0;
    proof {
        assert(argument_views(args@) =~= nothing.args);
        assert(attack_views(attacks@) =~= nothing.attacks);
        assert(mark_views(optionals@) =~= nothing.markers);
    }
    while at < lexemes.len()
        invariant
            at <= lexemes.len(),
            chars@ == input@,
            lexemes@ == self::lexemes::<Token>(chars@),
            within(lexemes@, chars@.len() as int),
            nothing == (Parsed { args: Seq::empty(), attacks: Seq::empty(), markers: Seq::empty() }),
            statements_from(chars@, lexemes@, 0, nothing) == statements_from(
                chars@,
                lexemes@,
                at as int,
                Parsed {
                    args: argument_views(args@),
                    attacks: attack_views(attacks@),
                    markers: mark_views(optionals@),
                },
            ),
        decreases lexemes.len() - at,
    {
        let ghost so_far = Parsed {
            args: argument_views(args@),
            attacks: attack_views(attacks@),
            markers: mark_views(optionals@),
        };
        let token = lexemes[at].token;
        match token {
            Token::Arg => {
                let pattern = vec![
                    Token::LeftParen,
                    Token::Text,
                    Token::RightParen,
                    Token::Period,
                ];
                proof {
                    assert(pattern@ =~= after_arg());
                    lemma_agreement_bounds(lexemes@, at + 1, pattern@);
                }
                match expect(&chars, &lexemes, at + 1, &pattern) {
                    Err(error) => {
                        proof {
                            assert(statements_from(chars@, lexemes@, at as int, so_far) == Err::<
                                Parsed,
                                _,
                            >(error@));
                            assert(parse(input@) == Err::<(Seq<ArgumentView>, Seq<AttackView>), _>(
                                error@,
                            ));
                        }
                        return Err(error);
                    },
                    Ok(()) => {},
                }
                let raw = parse_argument(&chars, &lexemes, at + 1);
                args.push(Argument { id: raw.id, optional: false });
                proof {
                    assert(argument_views(args@) =~= record(
                        chars@,
                        lexemes@,
                        at as int,
                        so_far,
                    ).args);
                }
                at = at + 5;
            },
            Token::Attack => {
                let pattern = vec![
                    Token::LeftParen,
                    Token::Text,
                    Token::Comma,
                    Token::Text,
                    Token::RightParen,
                    Token::Period,
                ];
                proof {
                    assert(pattern@ =~= after_att());
                    lemma_agreement_bounds(lexemes@, at + 1, pattern@);
                }
                match expect(&chars, &lexemes, at + 1, &pattern) {
                    Err(error) => {
                        proof {
                            assert(statements_from(chars@, lexemes@, at as int, so_far) == Err::<
                                Parsed,
                                _,
                            >(error@));
                            assert(parse(input@) == Err::<(Seq<ArgumentView>, Seq<AttackView>), _>(
                                error@,
                            ));
                        }
                        return Err(error);
                    },
                    Ok(()) => {},
                }
                let raw = parse_attack(&chars, &lexemes, at + 1);
                attacks.push(Attack { from: raw.from, to: raw.to, optional: false });
                proof {
                    assert(attack_views(attacks@) =~= record(
                        chars@,
                        lexemes@,
                        at as int,
                        so_far,
                    ).attacks);
                }
                at = at + 7;
            },
            Token::Optional => {
                let mark = match parse_optional(&chars, &lexemes, at) {
                    Err(error) => {
                        proof {
                            assert(statements_from(chars@, lexemes@, at as int, so_far) == Err::<
                                Parsed,
                                _,
                            >(error@));
                            assert(parse(input@) == Err::<(Seq<ArgumentView>, Seq<AttackView>), _>(
                                error@,
                            ));
                        }
                        return Err(error);
                    },
                    Ok(mark) => mark,
                };
                let attack_marked = match mark {
                    Mark::Attack(_) => true,
                    Mark::Argument(_) => false,
                };
                optionals.push(mark);
                proof {
                    assert(mark_views(optionals@) =~= record(
                        chars@,
                        lexemes@,
                        at as int,
                        so_far,
                    ).markers);
                }
                at = if attack_marked {
                    at + 10
                } else {
                    at + 8
                };
            },
            _ => {
                let error = fail_at(&chars, &lexemes, at);
                proof {
                    assert(statements_from(chars@, lexemes@, at as int, so_far) == Err::<
                        Parsed,
                        _,
                    >(error@));
                    assert(parse(input@) == Err::<(Seq<ArgumentView>, Seq<AttackView>), _>(error@));
                }
                return Err(error);
            },
        }
    }
    let ghost parsed = Parsed {
        args: argument_views(args@),
        attacks: attack_views(attacks@),
        markers: mark_views(optionals@),
    };
    let mut m: usize = 0;
    proof {
        assert(optionals@.skip(0) == optionals@);
    }
    while m < optionals.len()
        invariant
            m <= optionals.len(),
            parse(input@) == apply_markers(parsed.args, parsed.attacks, parsed.markers),
            apply_markers(parsed.args, parsed.attacks, parsed.markers) == apply_markers(
                argument_views(args@),
                attack_views(attacks@),
                mark_views(optionals@.skip(m as int)),
            ),
        decreases optionals.len() - m,
    {
        proof {
            let rest = mark_views(optionals@.skip(m as int));
            assert(rest.len() > 0);
            assert(rest[0] == optionals@[m as int]@);
            assert(rest.drop_first() =~= mark_views(optionals@.skip(m + 1)));
        }
        match &optionals[m] {
            Mark::Argument(raw) => {
                let ghost before = argument_views(args@);
                if !mark_argument(&mut args, &raw.id) {
                    let error = ParserError::OptionalArgumentNotFound { arg_id: raw.id.clone() };
                    proof {
                        assert(apply_markers(
                            before,
                            attack_views(attacks@),
                            mark_views(optionals@.skip(m as int)),
                        ) == Err::<(Seq<ArgumentView>, Seq<AttackView>), _>(error@));
                    }
                    return Err(error);
                }
            },
            Mark::Attack(raw) => {
                let ghost before = attack_views(attacks@);
                if !mark_attack(&mut attacks, &raw.from, &raw.to) {
                    let error = ParserError::OptionalAttackNotFound {
                        from: raw.from.clone(),
                        to: raw.to.clone(),
                    };
                    proof {
                        assert(apply_markers(
                            argument_views(args@),
                            before,
                            mark_views(optionals@.skip(m as int)),
                        ) == Err::<(Seq<ArgumentView>, Seq<AttackView>), _>(error@));
                    }
                    return Err(error);
                }
            },
        }
        m += 1;
    }
    proof {
        assert(mark_views(optionals@.skip(optionals.len() as int)).len() == 0);
    }
    Ok((args, attacks))
}

/// The statements that stand for one argument: its declaration and, if it
/// is optional, its mark; closed by a line break.
pub open spec fn argument_statements(argument: ArgumentView) -> Seq<char> {
    let declaration = "arg("@ + argument.id + ")"@;
    if argument.optional {
        declaration + ". opt("@ + declaration + ").\n"@
    } else {
        declaration + ".\n"@
    }
}

/// The statements that stand for one attack: its declaration and, if it is
/// optional, its mark; closed by a line break.
pub open spec fn attack_statements(attack: AttackView) -> Seq<char> {
    let declaration = "att("@ + attack.from + ", "@ + attack.to + ")"@;
    if attack.optional {
        declaration + ". opt("@ + declaration + ").\n"@
    } else {
        declaration + ".\n"@
    }
}

/// The statements of all arguments, in order.
pub open spec fn arguments_text(args: Seq<ArgumentView>) -> Seq<char>
    decreases args.len(),
{
    if args.len() == 0 {
        Seq::empty()
    } else {
        arguments_text(args.drop_last()) + argument_statements(args.last())
    }
}

/// The statements of all attacks, in order.
pub open spec fn attacks_text(attacks: Seq<AttackView>) -> Seq<char>
    decreases attacks.len(),
{
    if attacks.len() == 0 {
        Seq::empty()
    } else {
        attacks_text(attacks.drop_last()) + attack_statements(attacks.last())
    }
}

/// A framework in the explicit format: the arguments, then the attacks.
pub open spec fn render(args: Seq<ArgumentView>, attacks: Seq<AttackView>) -> Seq<char> {
    arguments_text(args) + attacks_text(attacks)
}

/// Writes a framework in the explicit format, with every element that is
/// optional marked as such.
pub fn write_file(args: &Vec<Argument>, attacks: &Vec<Attack>) -> (text: String)
    ensures
        text@ == render(argument_views(args@), attack_views(attacks@)),
{
    let mut text = String::new();
    let mut i: usize = 0;
    while i < args.len()
        invariant
            i <= args.len(),
            text@ == arguments_text(argument_views(args@).take(i as int)),
        decreases args.len() - i,
    {
        proof {
            assert(argument_views(args@).take(i + 1).drop_last() == argument_views(args@).take(
                i as int,
            ));
        }
        let mut declaration = String::from_str("arg(");
        declaration.append(args[i].id.as_str());
        declaration.append(")");
        text.append(declaration.as_str());
        if args[i].optional {
            text.append(". opt(");
            text.append(declaration.as_str());
            text.append(").\n");
        } else {
            text.append(".\n");
        }
        i += 1;
    }
    proof {
        assert(argument_views(args@).take(args.len() as int) == argument_views(args@));
    }
    let ghost head = text@;
    let mut j: usize = 0;
    while j < attacks.len()
        invariant
            j <= attacks.len(),
            text@ == head + attacks_text(attack_views(attacks@).take(j as int)),
        decreases attacks.len() - j,
    {
        proof {
            assert(attack_views(attacks@).take(j + 1).drop_last() == attack_views(attacks@).take(
                j as int,
            ));
        }
        let mut declaration = String::from_str("att(");
        declaration.append(attacks[j].from.as_str());
        declaration.append(", ");
        declaration.append(attacks[j].to.as_str());
        declaration.append(")");
        text.append(declaration.as_str());
        if attacks[j].optional {
            text.append(". opt(");
            text.append(declaration.as_str());
            text.append(").\n");
        } else {
            text.append(".\n");
        }
        j += 1;
    }
    proof {
        assert(attack_views(attacks@).take(attacks.len() as int) == attack_views(attacks@));
    }
    text
}

} // verus!
