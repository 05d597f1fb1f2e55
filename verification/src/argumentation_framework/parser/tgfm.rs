//! The terse update format.
//!
//! A line begins with `+` to enable or `-` to disable. A single name stands
//! for an argument, two names with spaces between them for the attack from
//! the first to the second. Further names follow behind colons. The line
//! ends where its characters end.
use vstd::prelude::*;

use crate::argumentation_framework::parser::apxm::AddDel;
use crate::argumentation_framework::parser::{
    fail_at, failure_at, lex, lexemes, text, text_of, within, Dialect, Lexeme, PieceKind,
};
use crate::argumentation_framework::symbols::{Argument, ArgumentView, Attack, AttackView};
use crate::argumentation_framework::{patch_views, Patch, PatchView};
use crate::framework::{Failure, ParserError};
use crate::text::to_chars;

verus! {

/// The tokens of the terse update format.
#[derive(Debug, Clone, Copy, PartialEq, Eq, Structural)]
pub enum Token {
    Colon,
    /// A character that begins no token.
    Error,
    Minus,
    Plus,
    /// A name.
    Text,
    /// One space or more.
    Whitespace,
}

impl Dialect for Token {
    open spec fn classify(kind: PieceKind, text: Seq<char>) -> Option<Self> {
        match kind {
            PieceKind::Word => Some(Token::Text),
            PieceKind::Spaces => Some(Token::Whitespace),
            PieceKind::Breaks => None,
            PieceKind::Other => Some(
                if text.len() == 0 {
                    Token::Error
                } else if text[0] == ':' {
                    Token::Colon
                } else if text[0] == '-' {
                    Token::Minus
                } else if text[0] == '+' {
                    Token::Plus
                } else {
                    Token::Error
                },
            ),
        }
    }

    fn token_of(kind: PieceKind, chars: &Vec<char>, start: usize, end: usize) -> (token: Option<Self>) {
        match kind {
            PieceKind::Word => Some(Token::Text),
            PieceKind::Spaces => Some(Token::Whitespace),
            PieceKind::Breaks => None,
            PieceKind::Other => Some(
                if start == end {
                    Token::Error
                } else if chars[start] == ':' {
                    Token::Colon
                } else if chars[start] == '-' {
                    Token::Minus
                } else if chars[start] == '+' {
                    Token::Plus
                } else {
                    Token::Error
                },
            ),
        }
    }

    fn same_as(&self, other: &Self) -> (same: bool) {
        *self == *other
    }
}

/// The sign that the token at the place `at` stands for.
pub open spec fn sign_at(s: Seq<char>, lexemes: Seq<Lexeme<Token>>, at: int) -> Result<AddDel, Failure> {
    if !(0 <= at < lexemes.len()) {
        Err(Failure::UnexpectedEndOfInput)
    } else if lexemes[at].token == Token::Plus {
        Ok(AddDel::Add)
    } else if lexemes[at].token == Token::Minus {
        Ok(AddDel::Del)
    } else {
        Err(failure_at(s, lexemes, at))
    }
}

/// What the reader finds at the place `at`, where a patch has to begin: the
/// patch and the number of tokens that it takes, the colon behind it
/// included.
pub open spec fn patch_at(s: Seq<char>, lexemes: Seq<Lexeme<Token>>, at: int, sign: AddDel) -> Result<
    (PatchView, int),
    Failure,
> {
    let argument = sign.arg_patch(ArgumentView { id: text(s, lexemes[at]), optional: false });
    let attack = sign.att_patch(
        AttackView { from: text(s, lexemes[at]), to: text(s, lexemes[at + 2]), optional: false },
    );
    if !(0 <= at < lexemes.len()) {
        Err(Failure::UnexpectedEndOfInput)
    } else if lexemes[at].token != Token::Text {
        Err(failure_at(s, lexemes, at))
    } else if at + 1 >= lexemes.len() {
        Ok((argument, 1))
    } else if lexemes[at + 1].token == Token::Colon {
        Ok((argument, 2))
    } else if lexemes[at + 1].token != Token::Whitespace {
        Err(failure_at(s, lexemes, at + 1))
    } else if at + 2 >= lexemes.len() {
        Err(Failure::UnexpectedEndOfInput)
    } else if lexemes[at + 2].token != Token::Text {
        Err(failure_at(s, lexemes, at + 2))
    } else if at + 3 >= lexemes.len() {
        Ok((attack, 3))
    } else if lexemes[at + 3].token == Token::Colon {
        Ok((attack, 4))
    } else {
        Err(failure_at(s, lexemes, at + 3))
    }
}

/// Whether characters remain behind the token before the place `at`.
pub open spec fn more_to_read(s: Seq<char>, lexemes: Seq<Lexeme<Token>>, at: int) -> bool {
    0 < at <= lexemes.len() && lexemes[at - 1].end < s.len()
}

/// Reads the patches of a line from the place `at` on, which is the place
/// behind the sign or behind a colon. The line is read to its end if no
/// character remains there, or if a patch is closed by the end of the tokens
/// and not by a colon: the reader has then passed over all that was left.
pub open spec fn patches_from(
    s: Seq<char>,
    lexemes: Seq<Lexeme<Token>>,
    at: int,
    sign: AddDel,
    so_far: Seq<PatchView>,
) -> Result<Seq<PatchView>, Failure>
    decreases lexemes.len() - at,
{
    if !more_to_read(s, lexemes, at) {
        Ok(so_far)
    } else {
        match patch_at(s, lexemes, at, sign) {
            Ok((patch, taken)) => if 0 < taken && at + taken <= lexemes.len() && lexemes[at + taken
                - 1].token == Token::Colon {
                patches_from(s, lexemes, at + taken, sign, so_far.push(patch))
            } else {
                Ok(so_far.push(patch))
            },
            Err(failure) => Err(failure),
        }
    }
}

/// The patches that a line in the terse update format stands for, in the
/// order in which the line names them.
pub open spec fn parse(s: Seq<char>) -> Result<Seq<PatchView>, Failure> {
    match sign_at(s, lexemes::<Token>(s), 0) {
        Ok(sign) => patches_from(s, lexemes::<Token>(s), 1, sign, Seq::empty()),
        Err(failure) => Err(failure),
    }
}

fn parse_add_del(chars: &Vec<char>, lexemes: &Vec<Lexeme<Token>>) -> (outcome: Result<
    AddDel,
    ParserError,
>)
    requires
        within(lexemes@, chars@.len() as int),
    ensures
        match outcome {
            Ok(sign) => sign_at(chars@, lexemes@, 0) == Ok::<_, Failure>(sign),
            Err(error) => sign_at(chars@, lexemes@, 0) == Err::<AddDel, _>(error@),
        },
{
    if lexemes.len() == 0 {
        Err(ParserError::UnexpectedEndOfInput)
    } else {
        match lexemes[0].token {
            Token::Plus => Ok(AddDel::Add),
            Token::Minus => Ok(AddDel::Del),
            _ => Err(fail_at(chars, lexemes, 0)),
        }
    }
}

/// Reads the name that has to stand at the place `at`.
fn parse_argument(chars: &Vec<char>, lexemes: &Vec<Lexeme<Token>>, at: usize) -> (outcome: Result<
    Argument,
    ParserError,
>)
    requires
        within(lexemes@, chars@.len() as int),
    ensures
        outcome is Ok <==> at < lexemes.len() && lexemes@[at as int].token == Token::Text,
        outcome matches Ok(argument) ==> argument@ == (ArgumentView {
            id: text(chars@, lexemes@[at as int]),
            optional: false,
        }),
        outcome matches Err(error) ==> error@ == failure_at(chars@, lexemes@, at as int),
{
    if at < lexemes.len() && lexemes[at].token == Token::Text {
        Ok(Argument { id: text_of(chars, &lexemes[at]), optional: false })
    } else {
        Err(fail_at(chars, lexemes, at))
    }
}

/// Reads the patch that has to begin at the place `at`, and says how many
/// tokens it takes.
fn parse_patch(chars: &Vec<char>, lexemes: &Vec<Lexeme<Token>>, at: usize, add_del: AddDel) -> (outcome:
    Result<(Patch, usize), ParserError>)
    requires
        within(lexemes@, chars@.len() as int),
        at <= lexemes.len(),
    ensures
        match outcome {
            Ok((patch, taken)) => patch_at(chars@, lexemes@, at as int, add_del) == Ok::<
                _,
                Failure,
            >((patch@, taken as int)) && 1 <= taken <= 4,
            Err(error) => patch_at(chars@, lexemes@, at as int, add_del) == Err::<
                (PatchView, int),
                _,
            >(error@),
        },
{
    let arg = parse_argument(chars, lexemes, at)?;
    if at + 1 >= lexemes.len() {
        return Ok((add_del.arg(arg), 1));
    }
    match lexemes[at + 1].token {
        Token::Colon => Ok((add_del.arg(arg), 2)),
        Token::Whitespace => {
            let to = parse_argument(chars, lexemes, at + 2)?;
            let attack = Attack { from: arg.id, to: to.id, optional: false };
            if at + 3 >= lexemes.len() {
                return Ok((add_del.att(attack), 3));
            }
            match lexemes[at + 3].token {
                Token::Colon => Ok((add_del.att(attack), 4)),
                _ => Err(fail_at(chars, lexemes, at + 3)),
            }
        },
        _ => Err(fail_at(chars, lexemes, at + 1)),
    }
}

/// Whether characters remain behind the tokens before the place `at`.
fn has_more(chars: &Vec<char>, lexemes: &Vec<Lexeme<Token>>, at: usize) -> (more: bool)
    ensures
        more == more_to_read(chars@, lexemes@, at as int),
{
    0 < at && at <= lexemes.len() && lexemes[at - 1].end < chars.len()
}

/// Parse a full update line.
///
/// # Example
/// - `+1 3`
/// - `-2 1`
/// - `+4:4 1:2 4`
/// - `-3`
pub fn parse_line(input: &str) -> (outcome: Result<Vec<Patch>, ParserError>)
    ensures
        match outcome {
            Ok(patches) => parse(input@) == Ok::<_, Failure>(patch_views(patches@)),
            Err(error) => parse(input@) == Err::<Seq<PatchView>, _>(error@),
        },
{
    let chars = to_chars(input);
    let lexemes = lex::<Token>(&chars);
    let add_del = parse_add_del(&chars, &lexemes)?;
    let mut patches: Vec<Patch> = Vec::new();
    let mut at: usize = 1;
    proof {
        assert(patch_views(patches@) =~= Seq::<PatchView>::empty());
    }
    while has_more(&chars, &lexemes, at)
        invariant
            1 <= at,
            chars@ == input@,
            lexemes@ == self::lexemes::<Token>(chars@),
            within(lexemes@, chars@.len() as int),
            parse(input@) == patches_from(
                chars@,
                lexemes@,
                at as int,
                add_del,
                patch_views(patches@),
            ),
        decreases lexemes.len() - at,
    {
        let ghost so_far = patch_views(patches@);
        let (patch, taken) = match parse_patch(&chars, &lexemes, at, add_del) {
            Ok(found) => found,
            Err(error) => {
                proof {
                    assert(patches_from(chars@, lexemes@, at as int, add_del, so_far) == Err::<
                        Seq<PatchView>,
                        _,
                    >(error@));
                }
                return Err(error);
            },
        };
        patches.push(patch);
        proof {
            assert(patch_views(patches@) =~= so_far.push(patch@));
        }
        if taken > lexemes.len() - at || lexemes[at + taken - 1].token != Token::Colon {
            proof {
                assert(patches_from(chars@, lexemes@, at as int, add_del, so_far) == Ok::<
                    _,
                    Failure,
                >(patch_views(patches@)));
            }
            return Ok(patches);
        }
        at = at + taken;
    }
    Ok(patches)
}

} // verus!
