//! The explicit update format.
//!
//! A line begins with `+` to enable or `-` to disable, names what is meant
//! as `arg(a)` or `att(a,b)`, goes on with further names behind colons, and
//! ends with a period. What follows the period is not read.
use vstd::prelude::*;

use crate::argumentation_framework::parser::{
    agreement, expect, fail_at, failure_at, is_word, lemma_agreement_bounds, lex, lexemes, stands,
    text, text_of, within, Dialect, Lexeme, PieceKind,
};
use crate::argumentation_framework::symbols::{Argument, ArgumentView, Attack, AttackView};
use crate::argumentation_framework::{patch_views, Patch, PatchView};
use crate::framework::{Failure, ParserError};
use crate::text::to_chars;

verus! {

/// The tokens of the explicit update format.
#[derive(Debug, Clone, Copy, PartialEq, Eq, Structural)]
pub enum Token {
    /// The word `arg`.
    Arg,
    /// The word `att`.
    Attack,
    Colon,
    Comma,
    /// A character that begins no token.
    Error,
    LeftParen,
    Minus,
    /// The word `opt`.
    Optional,
    Period,
    Plus,
    RightParen,
    /// Any other word: a name.
    Text,
}

impl Dialect for Token {
    open spec fn classify(kind: PieceKind, text: Seq<char>) -> Option<Self> {
        match kind {
            PieceKind::Word => Some(
                if text == "arg"@ {
                    Token::Arg
                } else if text == "att"@ {
                    Token::Attack
                } else if text == "opt"@ {
                    Token::Optional
                } else {
                    Token::Text
                },
            ),
            PieceKind::Spaces | PieceKind::Breaks => None,
            PieceKind::Other => Some(
                if text.len() == 0 {
                    Token::Error
                } else if text[0] == ':' {
                    Token::Colon
                } else if text[0] == ',' {
                    Token::Comma
                } else if text[0] == '(' {
                    Token::LeftParen
                } else if text[0] == '-' {
                    Token::Minus
                } else if text[0] == '.' {
                    Token::Period
                } else if text[0] == '+' {
                    Token::Plus
                } else if text[0] == ')' {
                    Token::RightParen
                } else {
                    Token::Error
                },
            ),
        }
    }

    fn token_of(kind: PieceKind, chars: &Vec<char>, start: usize, end: usize) -> (token: Option<Self>) {
        match kind {
            PieceKind::Word => Some(
                if is_word(chars, start, end, "arg") {
                    Token::Arg
                } else if is_word(chars, start, end, "att") {
                    Token::Attack
                } else if is_word(chars, start, end, "opt") {
                    Token::Optional
                } else {
                    Token::Text
                },
            ),
            PieceKind::Spaces | PieceKind::Breaks => None,
            PieceKind::Other => Some(
                if start == end {
                    Token::Error
                } else if chars[start] == ':' {
                    Token::Colon
                } else if chars[start] == ',' {
                    Token::Comma
                } else if chars[start] == '(' {
                    Token::LeftParen
                } else if chars[start] == '-' {
                    Token::Minus
                } else if chars[start] == '.' {
                    Token::Period
                } else if chars[start] == '+' {
                    Token::Plus
                } else if chars[start] == ')' {
                    Token::RightParen
                } else {
                    Token::Error
                },
            ),
        }
    }

    fn same_as(&self, other: &Self) -> (same: bool) {
        *self == *other
    }
}

/// Whether a line enables or disables what it names.
#[derive(Debug, Clone, Copy, PartialEq, Eq, Structural)]
pub enum AddDel {
    Add,
    Del,
}

impl AddDel {
    /// The patch that this sign makes of an argument.
    pub open spec fn arg_patch(self, argument: ArgumentView) -> PatchView {
        match self {
            AddDel::Add => PatchView::EnableArgument(argument),
            AddDel::Del => PatchView::DisableArgument(argument),
        }
    }

    /// The patch that this sign makes of an attack.
    pub open spec fn att_patch(self, attack: AttackView) -> PatchView {
        match self {
            AddDel::Add => PatchView::EnableAttack(attack),
            AddDel::Del => PatchView::DisableAttack(attack),
        }
    }

    pub fn arg(&self, arg: Argument) -> (patch: Patch)
        ensures
            patch@ == self.arg_patch(arg@),
    {
        match self {
            AddDel::Add => Patch::EnableArgument(arg),
            AddDel::Del => Patch::DisableArgument(arg),
        }
    }

    pub fn att(&self, att: Attack) -> (patch: Patch)
        ensures
            patch@ == self.att_patch(att@),
    {
        match self {
            AddDel::Add => Patch::EnableAttack(att),
            AddDel::Del => Patch::DisableAttack(att),
        }
    }
}

/// What has to follow `arg` in an update line.
pub open spec fn after_arg() -> Seq<Token> {
    seq![Token::LeftParen, Token::Text, Token::RightParen]
}

/// What has to follow `att` in an update line.
pub open spec fn after_att() -> Seq<Token> {
    seq![Token::LeftParen, Token::Text, Token::Comma, Token::Text, Token::RightParen]
}

/// What has to follow the first token of the patch at the place `at`.
pub open spec fn rest_of_patch(lexemes: Seq<Lexeme<Token>>, at: int) -> Seq<Token> {
    if lexemes[at].token == Token::Arg {
        after_arg()
    } else {
        after_att()
    }
}

/// The patch that stands at the place `at`.
pub open spec fn patch_at(s: Seq<char>, lexemes: Seq<Lexeme<Token>>, at: int, sign: AddDel) -> PatchView {
    if lexemes[at].token == Token::Arg {
        sign.arg_patch(ArgumentView { id: text(s, lexemes[at + 2]), optional: false })
    } else {
        sign.att_patch(
            AttackView {
                from: text(s, lexemes[at + 2]),
                to: text(s, lexemes[at + 4]),
                optional: false,
            },
        )
    }
}

/// Reads the patches of a line; one has to begin at the place `at`.
pub open spec fn patches_from(
    s: Seq<char>,
    lexemes: Seq<Lexeme<Token>>,
    at: int,
    sign: AddDel,
    so_far: Seq<PatchView>,
) -> Result<Seq<PatchView>, Failure>
    decreases lexemes.len() - at,
{
    if !(0 <= at < lexemes.len()) {
        Err(Failure::UnexpectedEndOfInput)
    } else if !(lexemes[at].token == Token::Arg || lexemes[at].token == Token::Attack) {
        Err(failure_at(s, lexemes, at))
    } else {
        let rest = rest_of_patch(lexemes, at);
        let next = at + 1 + rest.len();
        if !(stands(lexemes, at + 1, rest) && next <= lexemes.len()) {
            Err(failure_at(s, lexemes, at + 1 + agreement(lexemes, at + 1, rest)))
        } else if next >= lexemes.len() {
            Err(Failure::UnexpectedEndOfInput)
        } else if lexemes[next].token == Token::Colon {
            patches_from(s, lexemes, next + 1, sign, so_far.push(patch_at(s, lexemes, at, sign)))
        } else if lexemes[next].token == Token::Period {
            Ok(so_far.push(patch_at(s, lexemes, at, sign)))
        } else {
            Err(failure_at(s, lexemes, next))
        }
    }
}

/// The sign that the token at the place `at` stands for.
pub open spec fn sign_at(s: Seq<char>, lexemes: Seq<Lexeme<Token>>, at: int) -> Result<AddDel, Failure> {
    if !(0 <= at < lexemes.len()) {
        Err(Failure::UnexpectedEndOfInput)
    } else if lexemes[at].token == Token::Plus {
        Ok(AddDel::Add)
    } else if lexemes[at].token == Token::Minus {
        Ok(AddDel::Del)
    } else {
        Err(failure_at(s, lexemes, at))
    }
}

/// The patches that a line in the explicit update format stands for, in the
/// order in which the line names them.
pub open spec fn parse(s: Seq<char>) -> Result<Seq<PatchView>, Failure> {
    match sign_at(s, lexemes::<Token>(s), 0) {
        Ok(sign) => patches_from(s, lexemes::<Token>(s), 1, sign, Seq::empty()),
        Err(failure) => Err(failure),
    }
}

fn parse_add_del(chars: &Vec<char>, lexemes: &Vec<Lexeme<Token>>) -> (outcome: Result<
    AddDel,
    ParserError,
>)
    requires
        within(lexemes@, chars@.len() as int),
    ensures
        match outcome {
            Ok(sign) => sign_at(chars@, lexemes@, 0) == Ok::<_, Failure>(sign),
            Err(error) => sign_at(chars@, lexemes@, 0) == Err::<AddDel, _>(error@),
        },
{
    if lexemes.len() == 0 {
        Err(ParserError::UnexpectedEndOfInput)
    } else {
        match lexemes[0].token {
            Token::Plus => Ok(AddDel::Add),
            Token::Minus => Ok(AddDel::Del),
            _ => Err(fail_at(chars, lexemes, 0)),
        }
    }
}

/// Reads `( name )`; the opening parenthesis is the token at the place `at`.
fn parse_arg_singleton(chars: &Vec<char>, lexemes: &Vec<Lexeme<Token>>, at: usize) -> (outcome: Result<
    Argument,
    ParserError,
>)
    requires
        within(lexemes@, chars@.len() as int),
        at <= lexemes.len(),
    ensures
        outcome is Ok <==> stands(lexemes@, at as int, after_arg()),
        outcome matches Ok(argument) ==> at + 3 <= lexemes.len() && argument@ == (ArgumentView {
            id: text(chars@, lexemes@[at + 1]),
            optional: false,
        }),
        outcome matches Err(error) ==> error@ == failure_at(
            chars@,
            lexemes@,
            at + agreement(lexemes@, at as int, after_arg()),
        ),
{
    let pattern = vec![Token::LeftParen, Token::Text, Token::RightParen];
    proof {
        assert(pattern@ =~= after_arg());
        lemma_agreement_bounds(lexemes@, at as int, pattern@);
    }
    expect(chars, lexemes, at, &pattern)?;
    Ok(Argument { id: text_of(chars, &lexemes[at + 1]), optional: false })
}

/// Reads `( name , name )`; the opening parenthesis is the token at the
/// place `at`.
fn parse_att_tuple(chars: &Vec<char>, lexemes: &Vec<Lexeme<Token>>, at: usize) -> (outcome: Result<
    Attack,
    ParserError,
>)
    requires
        within(lexemes@, chars@.len() as int),
        at <= lexemes.len(),
    ensures
        outcome is Ok <==> stands(lexemes@, at as int, after_att()),
        outcome matches Ok(attack) ==> at + 5 <= lexemes.len() && attack@ == (AttackView {
            from: text(chars@, lexemes@[at + 1]),
            to: text(chars@, lexemes@[at + 3]),
            optional: false,
        }),
        outcome matches Err(error) ==> error@ == failure_at(
            chars@,
            lexemes@,
            at + agreement(lexemes@, at as int, after_att()),
        ),
{
    let pattern = vec![
        Token::LeftParen,
        Token::Text,
        Token::Comma,
        Token::Text,
        Token::RightParen,
    ];
    proof {
        assert(pattern@ =~= after_att());
        lemma_agreement_bounds(lexemes@, at as int, pattern@);
    }
    expect(chars, lexemes, at, &pattern)?;
    Ok(
        Attack {
            from: text_of(chars, &lexemes[at + 1]),
            to: text_of(chars, &lexemes[at + 3]),
            optional: false,
        },
    )
}

/// Reads the patch that has to begin at the place `at`, and says where the
/// token behind it stands.
fn parse_patch(chars: &Vec<char>, lexemes: &Vec<Lexeme<Token>>, at: usize, add_del: AddDel) -> (outcome:
    Result<(Patch, usize), ParserError>)
    requires
        within(lexemes@, chars@.len() as int),
        at <= lexemes.len(),
    ensures
        match outcome {
            Ok((patch, next)) => {
                &&& at < lexemes.len()
                &&& lexemes@[at as int].token == Token::Arg || lexemes@[at as int].token
                    == Token::Attack
                &&& stands(lexemes@, at + 1, rest_of_patch(lexemes@, at as int))
                &&& next == at + 1 + rest_of_patch(lexemes@, at as int).len()
                &&& next <= lexemes.len()
                &&& patch@ == patch_at(chars@, lexemes@, at as int, add_del)
            },
            Err(error) => {
                if at >= lexemes.len() {
                    error@ == Failure::UnexpectedEndOfInput
                } else if !(lexemes@[at as int].token == Token::Arg || lexemes@[at as int].token
                    == Token::Attack) {
                    error@ == failure_at(chars@, lexemes@, at as int)
                } else {
                    &&& !stands(lexemes@, at + 1, rest_of_patch(lexemes@, at as int))
                    &&& error@ == failure_at(
                        chars@,
                        lexemes@,
                        at + 1 + agreement(
                            lexemes@,
                            at + 1,
                            rest_of_patch(lexemes@, at as int),
                        ),
                    )
                }
            },
        },
{
    if at >= lexemes.len() {
        return Err(ParserError::UnexpectedEndOfInput);
    }
    match lexemes[at].token {
        Token::Arg => {
            let argument = parse_arg_singleton(chars, lexemes, at + 1)?;
            Ok((add_del.arg(argument), at + 4))
        },
        Token::Attack => {
            let attack = parse_att_tuple(chars, lexemes, at + 1)?;
            Ok((add_del.att(attack), at + 6))
        },
        _ => Err(fail_at(chars, lexemes, at)),
    }
}

/// Parse a full update line.
///
/// # Example
/// - `+att(a1, a3).`
/// - `-att(a2,a1).`
/// - `+arg(a4):att(a4, a1):att(a2, a4).`
/// - `-arg(a3).`
pub fn parse_line(input: &str) -> (outcome: Result<Vec<Patch>, ParserError>)
    ensures
        match outcome {
            Ok(patches) => parse(input@) == Ok::<_, Failure>(patch_views(patches@)),
            Err(error) => parse(input@) == Err::<Seq<PatchView>, _>(error@),
        },
{
    let chars = to_chars(input);
    let lexemes = lex::<Token>(&chars);
    let add_del = parse_add_del(&chars, &lexemes)?;
    let mut patches: Vec<Patch> = Vec::new();
    let mut at: usize = 1;
    proof {
        assert(patch_views(patches@) =~= Seq::<PatchView>::empty());
    }
    loop
        invariant
            1 <= at <= lexemes.len(),
            chars@ == input@,
            lexemes@ == self::lexemes::<Token>(chars@),
            within(lexemes@, chars@.len() as int),
            parse(input@) == patches_from(
                chars@,
                lexemes@,
                at as int,
                add_del,
                patch_views(patches@),
            ),
        decreases lexemes.len() - at,
    {
        let ghost so_far = patch_views(patches@);
        let (patch, next) = match parse_patch(&chars, &lexemes, at, add_del) {
            Ok(found) => found,
            Err(error) => {
                proof {
                    assert(patches_from(chars@, lexemes@, at as int, add_del, so_far) == Err::<
                        Seq<PatchView>,
                        _,
                    >(error@));
                }
                return Err(error);
            },
        };
        patches.push(patch);
        proof {
            assert(patch_views(patches@) =~= so_far.push(
                patch_at(chars@, lexemes@, at as int, add_del),
            ));
        }
        if next >= lexemes.len() {
            proof {
                assert(patches_from(chars@, lexemes@, at as int, add_del, so_far) == Err::<
                    Seq<PatchView>,
                    _,
                >(Failure::UnexpectedEndOfInput));
            }
            return Err(ParserError::UnexpectedEndOfInput);
        }
        match lexemes[next].token {
            Token::Colon => {
                proof {
                    assert(patches_from(chars@, lexemes@, at as int, add_del, so_far)
                        == patches_from(
                        chars@,
                        lexemes@,
                        next + 1,
                        add_del,
                        patch_views(patches@),
                    ));
                }
                at = next + 1;
            },
            Token::Period => {
                proof {
                    assert(patches_from(chars@, lexemes@, at as int, add_del, so_far) == Ok::<
                        _,
                        Failure,
                    >(patch_views(patches@)));
                }
                return Ok(patches);
            },
            _ => {
                let error = fail_at(&chars, &lexemes, next);
                proof {
                    assert(patches_from(chars@, lexemes@, at as int, add_del, so_far) == Err::<
                        Seq<PatchView>,
                        _,
                    >(error@));
                }
                return Err(error);
            },
        }
    }
}

} // verus!
