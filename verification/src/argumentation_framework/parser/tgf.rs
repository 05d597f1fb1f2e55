//! The terse framework format.
//!
//! One name per line declares an argument; a line that holds `#` closes the
//! arguments; after it, two names with spaces between them declare an attack
//! from the first to the second. A `?` directly behind the name of an
//! argument, or behind the second name of an attack, marks the element as
//! optional. Line breaks separate nothing by themselves: they are passed
//! over wherever they stand.
use vstd::prelude::*;

use crate::argumentation_framework::parser::{
    agreement, expect, fail_at, failure_at, lemma_agreement_bounds, lex, lexemes, stands, text,
    text_of, within, Dialect, Lexeme, PieceKind,
};
use crate::argumentation_framework::symbols::{
    argument_views, attack_views, Argument, ArgumentView, Attack, AttackView,
};
use crate::framework::{Failure, ParserError};
use crate::text::to_chars;

verus! {

/// The tokens of the terse framework format.
#[derive(Debug, Clone, Copy, PartialEq, Eq, Structural)]
pub enum Token {
    /// A character that begins no token.
    Error,
    Hash,
    /// The mark `?`.
    Optional,
    /// A name.
    Text,
    /// One space or more.
    Whitespace,
}

impl Dialect for Token {
    open spec fn classify(kind: PieceKind, text: Seq<char>) -> Option<Self> {
        match kind {
            PieceKind::Word => Some(Token::Text),
            PieceKind::Spaces => Some(Token::Whitespace),
            PieceKind::Breaks => None,
            PieceKind::Other => Some(
                if text.len() == 0 {
                    Token::Error
                } else if text[0] == '#' {
                    Token::Hash
                } else if text[0] == '?' {
                    Token::Optional
                } else {
                    Token::Error
                },
            ),
        }
    }

    fn token_of(kind: PieceKind, chars: &Vec<char>, start: usize, end: usize) -> (token: Option<Self>) {
        match kind {
            PieceKind::Word => Some(Token::Text),
            PieceKind::Spaces => Some(Token::Whitespace),
            PieceKind::Breaks => None,
            PieceKind::Other => Some(
                if start == end {
                    Token::Error
                } else if chars[start] == '#' {
                    Token::Hash
                } else if chars[start] == '?' {
                    Token::Optional
                } else {
                    Token::Error
                },
            ),
        }
    }

    fn same_as(&self, other: &Self) -> (same: bool) {
        *self == *other
    }
}

/// Whether the name at the place `at` is marked as optional: a `?` follows
/// it with nothing in between.
pub open spec fn marked(lexemes: Seq<Lexeme<Token>>, at: int) -> bool {
    &&& at + 1 < lexemes.len()
    &&& lexemes[at + 1].token == Token::Optional
    &&& lexemes[at + 1].start == lexemes[at].end
}

/// How many tokens the name at the place `at` takes, its mark included.
pub open spec fn name_len(lexemes: Seq<Lexeme<Token>>, at: int) -> int {
    if marked(lexemes, at) {
        2
    } else {
        1
    }
}

/// Reads the arguments from the place `at` on, up to the separator. The
/// result also says where the token behind the separator stands.
pub open spec fn arguments_from(
    s: Seq<char>,
    lexemes: Seq<Lexeme<Token>>,
    at: int,
    so_far: Seq<ArgumentView>,
) -> Result<(Seq<ArgumentView>, int), Failure>
    decreases lexemes.len() - at,
{
    if !(0 <= at < lexemes.len()) {
        Err(Failure::UnexpectedEndOfInput)
    } else if lexemes[at].token == Token::Text {
        arguments_from(
            s,
            lexemes,
            at + name_len(lexemes, at),
            so_far.push(ArgumentView { id: text(s, lexemes[at]), optional: marked(lexemes, at) }),
        )
    } else if lexemes[at].token == Token::Hash {
        Ok((so_far, at + 1))
    } else {
        Err(failure_at(s, lexemes, at))
    }
}

/// What has to follow the first name of an attack.
pub open spec fn after_from() -> Seq<Token> {
    seq![Token::Whitespace, Token::Text]
}

/// Reads the attacks from the place `at` on, up to the end of the input.
pub open spec fn attacks_from(
    s: Seq<char>,
    lexemes: Seq<Lexeme<Token>>,
    at: int,
    so_far: Seq<AttackView>,
) -> Result<Seq<AttackView>, Failure>
    decreases lexemes.len() - at,
{
    if !(0 <= at < lexemes.len()) {
        Ok(so_far)
    } else if lexemes[at].token != Token::Text {
        Err(failure_at(s, lexemes, at))
    } else if !(stands(lexemes, at + 1, after_from()) && at + 3 <= lexemes.len()) {
        Err(failure_at(s, lexemes, at + 1 + agreement(lexemes, at + 1, after_from())))
    } else {
        attacks_from(
            s,
            lexemes,
            at + 2 + name_len(lexemes, at + 2),
            so_far.push(
                AttackView {
                    from: text(s, lexemes[at]),
                    to: text(s, lexemes[at + 2]),
                    optional: marked(lexemes, at + 2),
                },
            ),
        )
    }
}

/// What a text in the terse framework format declares: the arguments and
/// the attacks, in the order of their lines. A text without the separator
/// line is no framework.
pub open spec fn parse(s: Seq<char>) -> Result<(Seq<ArgumentView>, Seq<AttackView>), Failure> {
    match arguments_from(s, lexemes::<Token>(s), 0, Seq::empty()) {
        Ok((args, next)) => match attacks_from(s, lexemes::<Token>(s), next, Seq::empty()) {
            Ok(attacks) => Ok((args, attacks)),
            Err(failure) => Err(failure),
        },
        Err(failure) => Err(failure),
    }
}

fn is_marked(lexemes: &Vec<Lexeme<Token>>, at: usize) -> (optional: bool)
    requires
        at < lexemes.len(),
    ensures
        optional == marked(lexemes@, at as int),
{
    at < lexemes.len() - 1 && lexemes[at + 1].token == Token::Optional && lexemes[at + 1].start
        == lexemes[at].end
}

fn parse_arguments(chars: &Vec<char>, lexemes: &Vec<Lexeme<Token>>) -> (outcome: Result<
    (Vec<Argument>, usize),
    ParserError,
>)
    requires
        within(lexemes@, chars@.len() as int),
    ensures
        match outcome {
            Ok((args, next)) => next <= lexemes.len() && arguments_from(
                chars@,
                lexemes@,
                0,
                Seq::empty(),
            ) == Ok::<_, Failure>((argument_views(args@), next as int)),
            Err(error) => arguments_from(chars@, lexemes@, 0, Seq::empty()) == Err::<
                (Seq<ArgumentView>, int),
                _,
            >(error@),
        },
{
    let mut args: Vec<Argument> = Vec::new();
    let mut at: usize = 0;
    proof {
        assert(argument_views(args@) =~= Seq::<ArgumentView>::empty());
    }
    while at < lexemes.len()
        invariant
            at <= lexemes.len(),
            within(lexemes@, chars@.len() as int),
            arguments_from(chars@, lexemes@, 0, Seq::empty()) == arguments_from(
                chars@,
                lexemes@,
                at as int,
                argument_views(args@),
            ),
        decreases lexemes.len() - at,
    {
        let ghost so_far = argument_views(args@);
        match lexemes[at].token {
            Token::Text => {
                let id = text_of(chars, &lexemes[at]);
                let optional = is_marked(lexemes, at);
                args.push(Argument { id, optional });
                proof {
                    assert(argument_views(args@) =~= so_far.push(
                        ArgumentView {
                            id: text(chars@, lexemes@[at as int]),
                            optional: marked(lexemes@, at as int),
                        },
                    ));
                }
                at = if optional {
                    at + 2
                } else {
                    at + 1
                };
            },
            Token::Hash => {
                proof {
                    assert(arguments_from(chars@, lexemes@, at as int, so_far) == Ok::<_, Failure>(
                        (so_far, at + 1),
                    ));
                }
                return Ok((args, at + 1));
            },
            _ => {
                let error = fail_at(chars, lexemes, at);
                proof {
                    assert(arguments_from(chars@, lexemes@, at as int, so_far) == Err::<
                        (Seq<ArgumentView>, int),
                        _,
                    >(error@));
                }
                return Err(error);
            },
        }
    }
    Err(ParserError::UnexpectedEndOfInput)
}

fn parse_attacks(chars: &Vec<char>, lexemes: &Vec<Lexeme<Token>>, start: usize) -> (outcome: Result<
    Vec<Attack>,
    ParserError,
>)
    requires
        within(lexemes@, chars@.len() as int),
        start <= lexemes.len(),
    ensures
        match outcome {
            Ok(attacks) => attacks_from(chars@, lexemes@, start as int, Seq::empty()) == Ok::<
                _,
                Failure,
            >(attack_views(attacks@)),
            Err(error) => attacks_from(chars@, lexemes@, start as int, Seq::empty()) == Err::<
                Seq<AttackView>,
                _,
            >(error@),
        },
{
    let mut attacks: Vec<Attack> = Vec::new();
    let mut at: usize = start;
    proof {
        assert(attack_views(attacks@) =~= Seq::<AttackView>::empty());
    }
    while at < lexemes.len()
        invariant
            at <= lexemes.len(),
            within(lexemes@, chars@.len() as int),
            attacks_from(chars@, lexemes@, start as int, Seq::empty()) == attacks_from(
                chars@,
                lexemes@,
                at as int,
                attack_views(attacks@),
            ),
        decreases lexemes.len() - at,
    {
        let ghost so_far = attack_views(attacks@);
        match lexemes[at].token {
            Token::Text => {
                let from = text_of(chars, &lexemes[at]);
                let pattern = vec![Token::Whitespace, Token::Text];
                proof {
                    assert(pattern@ =~= after_from());
                    lemma_agreement_bounds(lexemes@, at + 1, pattern@);
                }
                match expect(chars, lexemes, at + 1, &pattern) {
                    Err(error) => {
                        proof {
                            assert(attacks_from(chars@, lexemes@, at as int, so_far) == Err::<
                                Seq<AttackView>,
                                _,
                            >(error@));
                        }
                        return Err(error);
                    },
                    Ok(()) => {},
                }
                let to = text_of(chars, &lexemes[at + 2]);
                let optional = is_marked(lexemes, at + 2);
                attacks.push(Attack { from, to, optional });
                proof {
                    assert(attack_views(attacks@) =~= so_far.push(
                        AttackView {
                            from: text(chars@, lexemes@[at as int]),
                            to: text(chars@, lexemes@[at + 2]),
                            optional: marked(lexemes@, at + 2),
                        },
                    ));
                }
                at = if optional {
                    at + 4
                } else {
                    at + 3
                };
            },
            _ => {
                let error = fail_at(chars, lexemes, at);
                proof {
                    assert(attacks_from(chars@, lexemes@, at as int, so_far) == Err::<
                        Seq<AttackView>,
                        _,
                    >(error@));
                }
                return Err(error);
            },
        }
    }
    Ok(attacks)
}

/// Reads a framework in the terse format.
pub fn parse_file(input: &str) -> (outcome: Result<(Vec<Argument>, Vec<Attack>), ParserError>)
    ensures
        match outcome {
            Ok(framework) => parse(input@) == Ok::<_, Failure>(
                (argument_views(framework.0@), attack_views(framework.1@)),
            ),
            Err(error) => parse(input@) == Err::<(Seq<ArgumentView>, Seq<AttackView>), _>(error@),
        },
{
    let chars = to_chars(input);
    let lexemes = lex::<Token>(&chars);
    let (args, next) = parse_arguments(&chars, &lexemes)?;
    let attacks = parse_attacks(&chars, &lexemes, next)?;
    Ok((args, attacks))
}

} // verus!
