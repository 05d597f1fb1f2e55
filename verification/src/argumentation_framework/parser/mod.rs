//! Readers for the framework and update formats.
//!
//! Every format is read in two steps. The input is first cut into pieces: a
//! word, a run of spaces, a run of line breaks, or a single other character.
//! Each format then says which token a piece is, if any. The grammar of a
//! format is stated over the tokens.
pub mod apx;
pub mod apxm;
pub mod round_trip;
pub mod tgf;
pub mod tgfm;

use vstd::prelude::*;

use crate::argumentation_framework::symbols::{
    argument_views, attack_views, Argument, ArgumentView, Attack, AttackView,
};
use crate::argumentation_framework::{patch_views, Patch, PatchView};
use crate::framework::{Failure, ParserError};
use crate::text::{slice_to_string, to_chars};

verus! {

/// A character that can begin a name.
pub open spec fn is_name_start(c: char) -> bool {
    ('a' <= c && c <= 'z') || ('0' <= c && c <= '9')
}

/// A character that can stand inside a name.
pub open spec fn is_name_char(c: char) -> bool {
    is_name_start(c) || ('A' <= c && c <= 'Z') || c == '_' || c == '-'
}

/// Whether `word` can stand as a name: it begins with a name start and
/// holds name characters only.
pub open spec fn is_name(word: Seq<char>) -> bool {
    &&& word.len() > 0
    &&& is_name_start(word[0])
    &&& forall|i: int| 0 <= i < word.len() ==> is_name_char(#[trigger] word[i])
}

/// The kinds of piece that an input is cut into.
#[derive(Debug, Clone, Copy, PartialEq, Eq, Structural)]
pub enum PieceKind {
    /// A name start followed by as many name characters as there are.
    Word,
    /// As many spaces as there are.
    Spaces,
    /// As many carriage returns and line feeds as there are.
    Breaks,
    /// A single character that begins none of the above.
    Other,
}

/// A piece of the input: the characters from `start` up to `end`.
#[derive(Debug, Clone, Copy)]
pub struct Piece {
    pub kind: PieceKind,
    pub start: usize,
    pub end: usize,
}

/// The kind of the piece that begins with `c`.
pub open spec fn kind_of(c: char) -> PieceKind {
    if is_name_start(c) {
        PieceKind::Word
    } else if c == ' ' {
        PieceKind::Spaces
    } else if c == '\r' || c == '\n' {
        PieceKind::Breaks
    } else {
        PieceKind::Other
    }
}

/// Whether a piece of the given kind goes on over `c`.
pub open spec fn goes_on(kind: PieceKind, c: char) -> bool {
    match kind {
        PieceKind::Word => is_name_char(c),
        PieceKind::Spaces => c == ' ',
        PieceKind::Breaks => c == '\r' || c == '\n',
        PieceKind::Other => false,
    }
}

/// Where a piece of the given kind ends that has reached `at`.
pub open spec fn run_end(s: Seq<char>, kind: PieceKind, at: int) -> int
    decreases s.len() - at,
{
    if 0 <= at < s.len() && goes_on(kind, s[at]) {
        run_end(s, kind, at + 1)
    } else {
        at
    }
}

pub proof fn lemma_run_end_bounds(s: Seq<char>, kind: PieceKind, at: int)
    requires
        0 <= at <= s.len(),
    ensures
        at <= run_end(s, kind, at) <= s.len(),
    decreases s.len() - at,
{
    if at < s.len() && goes_on(kind, s[at]) {
        lemma_run_end_bounds(s, kind, at + 1);
    }
}

fn kind_of_char(c: char) -> (kind: PieceKind)
    ensures
        kind == kind_of(c),
{
    if ('a' <= c && c <= 'z') || ('0' <= c && c <= '9') {
        PieceKind::Word
    } else if c == ' ' {
        PieceKind::Spaces
    } else if c == '\r' || c == '\n' {
        PieceKind::Breaks
    } else {
        PieceKind::Other
    }
}

fn char_goes_on(kind: PieceKind, c: char) -> (on: bool)
    ensures
        on == goes_on(kind, c),
{
    match kind {
        PieceKind::Word => ('a' <= c && c <= 'z') || ('0' <= c && c <= '9') || ('A' <= c && c
            <= 'Z') || c == '_' || c == '-',
        PieceKind::Spaces => c == ' ',
        PieceKind::Breaks => c == '\r' || c == '\n',
        PieceKind::Other => false,
    }
}

/// Cuts off the piece that begins at `start`.
pub fn next_piece(chars: &Vec<char>, start: usize) -> (piece: Piece)
    requires
        start < chars.len(),
    ensures
        piece.kind == kind_of(chars@[start as int]),
        piece.start == start,
        piece.end == run_end(chars@, piece.kind, start + 1),
        start < piece.end <= chars.len(),
{
    let kind = kind_of_char(chars[start]);
    let mut end: usize = start + 1;
    while end < chars.len() && char_goes_on(kind, chars[end])
        invariant
            start < end <= chars.len(),
            run_end(chars@, kind, start + 1) == run_end(chars@, kind, end as int),
        decreases chars.len() - end,
    {
        end += 1;
    }
    Piece { kind, start, end }
}

/// A token together with the range of its characters in the input.
#[derive(Debug, Clone, Copy)]
pub struct Lexeme<T> {
    pub token: T,
    pub start: usize,
    pub end: usize,
}

/// The tokens of one format.
pub trait Dialect: Sized + Copy {
    /// The token that a piece of the given kind and text is; `None` where
    /// the format passes over the piece.
    spec fn classify(kind: PieceKind, text: Seq<char>) -> Option<Self>;

    /// Computes [`Dialect::classify`] for the piece `chars[start..end]`.
    fn token_of(kind: PieceKind, chars: &Vec<char>, start: usize, end: usize) -> (token: Option<Self>)
        requires
            start <= end <= chars.len(),
        ensures
            token == Self::classify(kind, chars@.subrange(start as int, end as int)),
    ;

    /// Whether two tokens are the same.
    fn same_as(&self, other: &Self) -> (same: bool)
        ensures
            same == (*self == *other),
    ;
}

/// The tokens of the input from `at` on.
pub open spec fn lexemes_from<T: Dialect>(s: Seq<char>, at: int) -> Seq<Lexeme<T>>
    decreases s.len() - at,
{
    if 0 <= at < s.len() {
        let kind = kind_of(s[at]);
        let end = run_end(s, kind, at + 1);
        if end <= at || end > s.len() {
            Seq::empty()
        } else {
            let rest = lexemes_from::<T>(s, end);
            match T::classify(kind, s.subrange(at, end)) {
                Some(token) => seq![Lexeme { token, start: at as usize, end: end as usize }] + rest,
                None => rest,
            }
        }
    } else {
        Seq::empty()
    }
}

/// The tokens of the whole input.
pub open spec fn lexemes<T: Dialect>(s: Seq<char>) -> Seq<Lexeme<T>> {
    lexemes_from::<T>(s, 0)
}

/// Whether every token lies inside an input of `len` characters.
pub open spec fn within<T>(lexemes: Seq<Lexeme<T>>, len: int) -> bool {
    forall|i: int|
        0 <= i < lexemes.len() ==> (#[trigger] lexemes[i]).start <= lexemes[i].end <= len
}

/// Cuts the input into the tokens of the format `T`.
pub fn lex<T: Dialect>(chars: &Vec<char>) -> (found: Vec<Lexeme<T>>)
    ensures
        found@ == lexemes::<T>(chars@),
        within(found@, chars@.len() as int),
{
    let mut found: Vec<Lexeme<T>> = Vec::new();
    let mut at: usize = 0;
    while at < chars.len()
        invariant
            at <= chars.len(),
            lexemes::<T>(chars@) == found@ + lexemes_from::<T>(chars@, at as int),
            within(found@, chars@.len() as int),
        decreases chars.len() - at,
    {
        let piece = next_piece(chars, at);
        let ghost rest = lexemes_from::<T>(chars@, piece.end as int);
        match T::token_of(piece.kind, chars, at, piece.end) {
            Some(token) => {
                let lexeme = Lexeme { token, start: at, end: piece.end };
                proof {
                    assert(lexemes_from::<T>(chars@, at as int) == seq![lexeme] + rest);
                    assert(found@ + (seq![lexeme] + rest) == found@.push(lexeme) + rest);
                }
                found.push(lexeme);
            },
            None => {
                proof {
                    assert(lexemes_from::<T>(chars@, at as int) == rest);
                }
            },
        }
        at = piece.end;
    }
    proof {
        assert(found@ + Seq::<Lexeme<T>>::empty() == found@);
    }
    found
}

/// What is wrong at the place `at` of the token sequence when the grammar
/// cannot go on there: the token that stands there, or the end of the input.
pub open spec fn failure_at<T>(s: Seq<char>, lexemes: Seq<Lexeme<T>>, at: int) -> Failure {
    if 0 <= at < lexemes.len() {
        Failure::UnexpectedToken {
            start: lexemes[at].start as int,
            end: lexemes[at].end as int,
            text: s.subrange(lexemes[at].start as int, lexemes[at].end as int),
        }
    } else {
        Failure::UnexpectedEndOfInput
    }
}

/// How many tokens of `pattern` stand, one after the other, from `at` on.
pub open spec fn agreement<T>(lexemes: Seq<Lexeme<T>>, at: int, pattern: Seq<T>) -> int
    decreases pattern.len(),
{
    if pattern.len() > 0 && 0 <= at < lexemes.len() && lexemes[at].token == pattern[0] {
        1 + agreement(lexemes, at + 1, pattern.drop_first())
    } else {
        0
    }
}

/// Whether all of `pattern` stands from `at` on.
pub open spec fn stands<T>(lexemes: Seq<Lexeme<T>>, at: int, pattern: Seq<T>) -> bool {
    agreement(lexemes, at, pattern) == pattern.len()
}

pub proof fn lemma_agreement_bounds<T>(lexemes: Seq<Lexeme<T>>, at: int, pattern: Seq<T>)
    requires
        0 <= at <= lexemes.len(),
    ensures
        0 <= agreement(lexemes, at, pattern) <= pattern.len(),
        at + agreement(lexemes, at, pattern) <= lexemes.len(),
        forall|k: int|
            0 <= k < agreement(lexemes, at, pattern) ==> (#[trigger] lexemes[at + k]).token
                == pattern[k],
        agreement(lexemes, at, pattern) < pattern.len() ==> (at + agreement(lexemes, at, pattern)
            >= lexemes.len() || lexemes[at + agreement(lexemes, at, pattern)].token
            != pattern[agreement(lexemes, at, pattern)]),
    decreases pattern.len(),
{
    if pattern.len() > 0 && at < lexemes.len() && lexemes[at].token == pattern[0] {
        let rest = pattern.drop_first();
        lemma_agreement_bounds(lexemes, at + 1, rest);
        let n = agreement(lexemes, at + 1, rest);
        assert forall|k: int| 0 <= k < n + 1 implies (#[trigger] lexemes[at + k]).token
            == pattern[k] by {
            if k > 0 {
                assert(lexemes[at + 1 + (k - 1)].token == rest[k - 1]);
            }
        }
        if n < rest.len() {
            assert(rest[n] == pattern[n + 1]);
        }
    }
}

/// The characters of a token.
pub fn text_of<T>(chars: &Vec<char>, lexeme: &Lexeme<T>) -> (text: String)
    requires
        lexeme.start <= lexeme.end <= chars.len(),
    ensures
        text@ == self::text(chars@, *lexeme),
{
    slice_to_string(chars, lexeme.start, lexeme.end)
}

/// The error for the place `at` of the token sequence.
pub fn fail_at<T>(chars: &Vec<char>, lexemes: &Vec<Lexeme<T>>, at: usize) -> (error: ParserError)
    requires
        within(lexemes@, chars@.len() as int),
    ensures
        error@ == failure_at(chars@, lexemes@, at as int),
{
    if at < lexemes.len() {
        let lexeme = &lexemes[at];
        ParserError::UnexpectedToken {
            start: lexeme.start,
            end: lexeme.end,
            text: text_of(chars, lexeme),
        }
    } else {
        ParserError::UnexpectedEndOfInput
    }
}

/// Expects the tokens of `pattern` from `at` on, and fails at the first
/// place where another token stands or the input ends.
pub fn expect<T: Dialect>(
    chars: &Vec<char>,
    lexemes: &Vec<Lexeme<T>>,
    at: usize,
    pattern: &Vec<T>,
) -> (outcome: Result<(), ParserError>)
    requires
        within(lexemes@, chars@.len() as int),
        at <= lexemes.len(),
    ensures
        outcome is Ok <==> stands(lexemes@, at as int, pattern@),
        outcome matches Err(error) ==> error@ == failure_at(
            chars@,
            lexemes@,
            at + agreement(lexemes@, at as int, pattern@),
        ),
{
    let mut k: usize = 0;
    proof {
        lemma_agreement_bounds(lexemes@, at as int, pattern@);
    }
    while k < pattern.len()
        invariant
            k <= pattern.len(),
            within(lexemes@, chars@.len() as int),
            k <= agreement(lexemes@, at as int, pattern@) <= pattern.len(),
            at + agreement(lexemes@, at as int, pattern@) <= lexemes.len(),
            forall|j: int|
                0 <= j < agreement(lexemes@, at as int, pattern@) ==> (#[trigger] lexemes@[at
                    + j]).token == pattern@[j],
            agreement(lexemes@, at as int, pattern@) < pattern.len() ==> (at + agreement(
                lexemes@,
                at as int,
                pattern@,
            ) >= lexemes.len() || lexemes@[at + agreement(lexemes@, at as int, pattern@)].token
                != pattern@[agreement(lexemes@, at as int, pattern@)]),
        decreases pattern.len() - k,
    {
        if at + k >= lexemes.len() || !lexemes[at + k].token.same_as(&pattern[k]) {
            proof {
                if k < agreement(lexemes@, at as int, pattern@) {
                    assert(lexemes@[at + k].token == pattern@[k as int]);
                }
            }
            return Err(fail_at(chars, lexemes, at + k));
        }
        k += 1;
    }
    Ok(())
}

/// Whether the piece `chars[start..end]` is the given word.
pub fn is_word(chars: &Vec<char>, start: usize, end: usize, word: &str) -> (same: bool)
    requires
        start <= end <= chars.len(),
    ensures
        same == (chars@.subrange(start as int, end as int) == word@),
{
    let letters = to_chars(word);
    if letters.len() != end - start {
        proof {
            assert(chars@.subrange(start as int, end as int).len() != word@.len());
        }
        return false;
    }
    let mut k: usize = 0;
    while k < letters.len()
        invariant
            k <= letters.len(),
            letters.len() == end - start,
            letters@ == word@,
            start <= end <= chars.len(),
            forall|j: int| 0 <= j < k ==> chars@[start + j] == letters@[j],
        decreases letters.len() - k,
    {
        if chars[start + k] != letters[k] {
            proof {
                let piece = chars@.subrange(start as int, end as int);
                assert(piece[k as int] != word@[k as int]);
                assert(piece != word@);
            }
            return false;
        }
        k += 1;
    }
    proof {
        assert(chars@.subrange(start as int, end as int) =~= letters@);
    }
    true
}

/// An argument as a statement declares it, before any optional mark.
#[derive(Debug)]
pub struct RawArgument {
    pub id: String,
}

/// An attack as a statement declares it, before any optional mark.
#[derive(Debug)]
pub struct RawAttack {
    pub from: String,
    pub to: String,
}

impl From<RawArgument> for Argument {
    fn from(raw: RawArgument) -> (argument: Self) {
        Argument { id: raw.id, optional: false }
    }
}

impl vstd::std_specs::convert::FromSpecImpl<RawArgument> for Argument {
    open spec fn obeys_from_spec() -> bool {
        true
    }

    open spec fn from_spec(raw: RawArgument) -> Self {
        Argument { id: raw.id, optional: false }
    }
}

impl From<RawAttack> for Attack {
    fn from(raw: RawAttack) -> (attack: Self) {
        Attack { from: raw.from, to: raw.to, optional: false }
    }
}

impl vstd::std_specs::convert::FromSpecImpl<RawAttack> for Attack {
    open spec fn obeys_from_spec() -> bool {
        true
    }

    open spec fn from_spec(raw: RawAttack) -> Self {
        Attack { from: raw.from, to: raw.to, optional: false }
    }
}

/// The characters of a token.
pub open spec fn text<T>(s: Seq<char>, lexeme: Lexeme<T>) -> Seq<char> {
    s.subrange(lexeme.start as int, lexeme.end as int)
}

/// What a text declares that is a framework in the explicit format or, if
/// it is none, in the terse format.
pub open spec fn framework_of(s: Seq<char>) -> Result<(Seq<ArgumentView>, Seq<AttackView>), Failure> {
    match apx::parse(s) {
        Ok(framework) => Ok(framework),
        Err(_) => tgf::parse(s),
    }
}

/// The patches of a line that is an update in the explicit format or, if it
/// is none, in the terse format.
pub open spec fn patches_of(s: Seq<char>) -> Result<Seq<PatchView>, Failure> {
    match apxm::parse(s) {
        Ok(patches) => Ok(patches),
        Err(_) => tgfm::parse(s),
    }
}

/// Reads a framework: in the explicit format if the text is in it, else in
/// the terse format. Where the text is in neither, the error is that of the
/// terse format.
pub fn parse_apx_tgf(input: &str) -> (outcome: Result<(Vec<Argument>, Vec<Attack>), ParserError>)
    ensures
        match outcome {
            Ok(framework) => framework_of(input@) == Ok::<_, Failure>(
                (argument_views(framework.0@), attack_views(framework.1@)),
            ),
            Err(error) => framework_of(input@) == Err::<(Seq<ArgumentView>, Seq<AttackView>), _>(
                error@,
            ),
        },
{
    match apx::parse_file(input) {
        Ok(framework) => Ok(framework),
        Err(_) => tgf::parse_file(input),
    }
}

/// Reads an update line: in the explicit format if the line is in it, else
/// in the terse format. Where the line is in neither, the error is that of
/// the terse format.
pub fn parse_apxm_tgfm_patch_line(input: &str) -> (outcome: Result<Vec<Patch>, ParserError>)
    ensures
        match outcome {
            Ok(patches) => patches_of(input@) == Ok::<_, Failure>(patch_views(patches@)),
            Err(error) => patches_of(input@) == Err::<Seq<PatchView>, _>(error@),
        },
{
    match apxm::parse_line(input) {
        Ok(patches) => Ok(patches),
        Err(_) => tgfm::parse_line(input),
    }
}

} // verus!
