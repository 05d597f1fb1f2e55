//! What is written in the explicit format is read back as it was.
use vstd::prelude::*;

use crate::argumentation_framework::parser::apx::{
    after_arg, after_att, after_opt_arg, after_opt_att, apply_markers, argument_statements,
    arguments_text, attack_statements, attacks_text, first_argument, first_attack, marks_attack,
    parse, render, rest_of_statement, statements_from, Marker, Parsed, Token,
};
use crate::argumentation_framework::parser::{
    agreement, goes_on, is_name, is_name_char, kind_of, lexemes, lexemes_from,
    run_end, stands, text, Dialect, Lexeme, PieceKind,
};
use crate::argumentation_framework::symbols::{ArgumentView, AttackView};
use crate::argumentation_framework::{
    distinct_arguments, distinct_attacks, unmarked_arguments, unmarked_attacks,
};
use crate::framework::Failure;

verus! {

/// Whether `word` is one of the words that the explicit format keeps for
/// itself.
pub open spec fn is_keyword(word: Seq<char>) -> bool {
    word == "arg"@ || word == "att"@ || word == "opt"@
}

/// Whether `word` can name an argument in the explicit format.
pub open spec fn nameable(word: Seq<char>) -> bool {
    is_name(word) && !is_keyword(word)
}

/// A piece runs on over the characters that carry it on, up to the first
/// that does not.
pub proof fn lemma_run_to(s: Seq<char>, kind: PieceKind, from: int, to: int)
    requires
        0 <= from <= to <= s.len(),
        forall|i: int| from <= i < to ==> goes_on(kind, #[trigger] s[i]),
        to == s.len() || !goes_on(kind, s[to]),
    ensures
        run_end(s, kind, from) == to,
    decreases to - from,
{
    if from < to {
        assert(goes_on(kind, s[from]));
        lemma_run_to(s, kind, from + 1, to);
    }
}

/// The tokens from a place on are the token of the piece that begins
/// there, if it is one, and the tokens from the end of the piece on.
pub proof fn lemma_lex_piece<T: Dialect>(s: Seq<char>, at: int, end: int)
    requires
        0 <= at < end <= s.len(),
        run_end(s, kind_of(s[at]), at + 1) == end,
        s.len() <= usize::MAX,
    ensures
        lexemes_from::<T>(s, at) == match T::classify(kind_of(s[at]), s.subrange(at, end)) {
            Some(token) => seq![Lexeme { token, start: at as usize, end: end as usize }]
                + lexemes_from::<T>(s, end),
            None => lexemes_from::<T>(s, end),
        },
{
}

/// A word that stands at the place `at`, with no name character behind it,
/// is one piece.
pub proof fn lemma_lex_word<T: Dialect>(s: Seq<char>, at: int, word: Seq<char>)
    requires
        0 <= at,
        at + word.len() <= s.len(),
        s.len() <= usize::MAX,
        s.subrange(at, at + word.len()) == word,
        is_name(word),
        at + word.len() == s.len() || !is_name_char(s[at + word.len()]),
        T::classify(PieceKind::Word, word) is Some,
    ensures
        lexemes_from::<T>(s, at) == seq![
            Lexeme {
                token: T::classify(PieceKind::Word, word)->Some_0,
                start: at as usize,
                end: (at + word.len()) as usize,
            },
        ] + lexemes_from::<T>(s, at + word.len()),
{
    let end = at + word.len();
    assert(s[at] == word[0]);
    assert forall|i: int| at + 1 <= i < end implies goes_on(PieceKind::Word, #[trigger] s[i]) by {
        assert(s[i] == word[i - at]);
    }
    lemma_run_to(s, PieceKind::Word, at + 1, end);
    lemma_lex_piece::<T>(s, at, end);
}

/// A character that begins no word, no run of spaces and no run of line
/// breaks is a piece by itself.
pub proof fn lemma_lex_symbol<T: Dialect>(s: Seq<char>, at: int)
    requires
        0 <= at < s.len(),
        s.len() <= usize::MAX,
        kind_of(s[at]) == PieceKind::Other,
        T::classify(PieceKind::Other, seq![s[at]]) is Some,
    ensures
        lexemes_from::<T>(s, at) == seq![
            Lexeme {
                token: T::classify(PieceKind::Other, seq![s[at]])->Some_0,
                start: at as usize,
                end: (at + 1) as usize,
            },
        ] + lexemes_from::<T>(s, at + 1),
{
    lemma_run_to(s, PieceKind::Other, at + 1, at + 1);
    assert(s.subrange(at, at + 1) =~= seq![s[at]]);
    lemma_lex_piece::<T>(s, at, at + 1);
}

/// A single space or line break that the format passes over, with no other
/// of its kind behind it, leaves no token.
pub proof fn lemma_lex_blank<T: Dialect>(s: Seq<char>, at: int)
    requires
        0 <= at < s.len(),
        s.len() <= usize::MAX,
        s[at] == ' ' || s[at] == '\n',
        at + 1 == s.len() || !goes_on(kind_of(s[at]), s[at + 1]),
        T::classify(kind_of(s[at]), seq![s[at]]) is None,
    ensures
        lexemes_from::<T>(s, at) == lexemes_from::<T>(s, at + 1),
{
    lemma_run_to(s, kind_of(s[at]), at + 1, at + 1);
    assert(s.subrange(at, at + 1) =~= seq![s[at]]);
    lemma_lex_piece::<T>(s, at, at + 1);
}

/// The token `token` over the characters from `start` up to `end`.
pub open spec fn lexeme(token: Token, start: int, end: int) -> Lexeme<Token> {
    Lexeme { token, start: start as usize, end: end as usize }
}

/// The declaration of the argument named `id`.
pub open spec fn argument_declaration(id: Seq<char>) -> Seq<char> {
    "arg("@ + id + ")"@
}

/// The declaration of the attack from `from` to `to`.
pub open spec fn attack_declaration(from: Seq<char>, to: Seq<char>) -> Seq<char> {
    "att("@ + from + ", "@ + to + ")"@
}

/// The tokens of the declaration of an argument whose name has `n`
/// characters, where the declaration begins at the place `at`.
pub open spec fn argument_tokens(at: int, n: int) -> Seq<Lexeme<Token>> {
    seq![
        lexeme(Token::Arg, at, at + 3),
        lexeme(Token::LeftParen, at + 3, at + 4),
        lexeme(Token::Text, at + 4, at + 4 + n),
        lexeme(Token::RightParen, at + 4 + n, at + 5 + n),
    ]
}

/// The tokens of the declaration of an attack whose names have `n` and `m`
/// characters, where the declaration begins at the place `at`.
pub open spec fn attack_tokens(at: int, n: int, m: int) -> Seq<Lexeme<Token>> {
    seq![
        lexeme(Token::Attack, at, at + 3),
        lexeme(Token::LeftParen, at + 3, at + 4),
        lexeme(Token::Text, at + 4, at + 4 + n),
        lexeme(Token::Comma, at + 4 + n, at + 5 + n),
        lexeme(Token::Text, at + 6 + n, at + 6 + n + m),
        lexeme(Token::RightParen, at + 6 + n + m, at + 7 + n + m),
    ]
}

/// The characters of the fixed texts of the format.
pub proof fn lemma_fixed_texts()
    ensures
        "arg"@ == seq!['a', 'r', 'g'],
        "att"@ == seq!['a', 't', 't'],
        "opt"@ == seq!['o', 'p', 't'],
        "arg("@ == seq!['a', 'r', 'g', '('],
        "att("@ == seq!['a', 't', 't', '('],
        ")"@ == seq![')'],
        ", "@ == seq![',', ' '],
        ".\n"@ == seq!['.', '\n'],
        ". opt("@ == seq!['.', ' ', 'o', 'p', 't', '('],
        ").\n"@ == seq![')', '.', '\n'],
{
    reveal_strlit("arg");
    reveal_strlit("att");
    reveal_strlit("opt");
    reveal_strlit("arg(");
    reveal_strlit("att(");
    reveal_strlit(")");
    reveal_strlit(", ");
    reveal_strlit(".\n");
    reveal_strlit(". opt(");
    reveal_strlit(").\n");
    assert("arg"@ =~= seq!['a', 'r', 'g']);
    assert("att"@ =~= seq!['a', 't', 't']);
    assert("opt"@ =~= seq!['o', 'p', 't']);
    assert("arg("@ =~= seq!['a', 'r', 'g', '(']);
    assert("att("@ =~= seq!['a', 't', 't', '(']);
    assert(")"@ =~= seq![')']);
    assert(", "@ =~= seq![',', ' ']);
    assert(".\n"@ =~= seq!['.', '\n']);
    assert(". opt("@ =~= seq!['.', ' ', 'o', 'p', 't', '(']);
    assert(").\n"@ =~= seq![')', '.', '\n']);
}

/// The declaration of an argument is read as its four tokens.
pub proof fn lemma_lex_argument_declaration(s: Seq<char>, at: int, id: Seq<char>)
    requires
        0 <= at,
        at + id.len() + 5 <= s.len(),
        s.len() <= usize::MAX,
        s.subrange(at, at + id.len() + 5) == argument_declaration(id),
        nameable(id),
    ensures
        lexemes_from::<Token>(s, at) == argument_tokens(at, id.len() as int) + lexemes_from::<Token>(
            s,
            at + id.len() + 5,
        ),
{
    lemma_fixed_texts();
    let n = id.len() as int;
    let d = argument_declaration(id);
    assert(d.len() == n + 5);
    assert forall|i: int| 0 <= i < n + 5 implies s[at + i] == d[i] by {
        assert(s.subrange(at, at + n + 5)[i] == s[at + i]);
    }
    assert(d[0] == 'a' && d[1] == 'r' && d[2] == 'g' && d[3] == '(');
    assert(d[n + 4] == ')');
    assert forall|i: int| 0 <= i < n implies d[4 + i] == id[i] by {}
    assert(s.subrange(at, at + 3) =~= "arg"@);
    assert(is_name("arg"@));
    lemma_lex_word::<Token>(s, at, "arg"@);
    lemma_lex_symbol::<Token>(s, at + 3);
    assert(s.subrange(at + 4, at + 4 + n) =~= id) by {
        assert forall|i: int| 0 <= i < n implies s.subrange(at + 4, at + 4 + n)[i] == id[i] by {
            assert(s[at + 4 + i] == d[4 + i]);
        }
    }
    assert(s[at + 4 + n] == ')');
    lemma_lex_word::<Token>(s, at + 4, id);
    lemma_lex_symbol::<Token>(s, at + 4 + n);
    assert(lexemes_from::<Token>(s, at) =~= argument_tokens(at, n) + lexemes_from::<Token>(
        s,
        at + n + 5,
    ));
}

/// The declaration of an attack is read as its six tokens.
pub proof fn lemma_lex_attack_declaration(s: Seq<char>, at: int, from: Seq<char>, to: Seq<char>)
    requires
        0 <= at,
        at + from.len() + to.len() + 7 <= s.len(),
        s.len() <= usize::MAX,
        s.subrange(at, at + from.len() + to.len() + 7) == attack_declaration(from, to),
        nameable(from),
        nameable(to),
    ensures
        lexemes_from::<Token>(s, at) == attack_tokens(at, from.len() as int, to.len() as int)
            + lexemes_from::<Token>(s, at + from.len() + to.len() + 7),
{
    lemma_fixed_texts();
    let n = from.len() as int;
    let m = to.len() as int;
    let d = attack_declaration(from, to);
    assert(d.len() == n + m + 7);
    assert forall|i: int| 0 <= i < n + m + 7 implies s[at + i] == d[i] by {
        assert(s.subrange(at, at + n + m + 7)[i] == s[at + i]);
    }
    assert(d[0] == 'a' && d[1] == 't' && d[2] == 't' && d[3] == '(');
    assert(d[n + 4] == ',' && d[n + 5] == ' ');
    assert(d[n + m + 6] == ')');
    assert forall|i: int| 0 <= i < n implies d[4 + i] == from[i] by {}
    assert forall|i: int| 0 <= i < m implies d[6 + n + i] == to[i] by {}
    assert(s.subrange(at, at + 3) =~= "att"@);
    assert(is_name("att"@));
    lemma_lex_word::<Token>(s, at, "att"@);
    lemma_lex_symbol::<Token>(s, at + 3);
    assert(s.subrange(at + 4, at + 4 + n) =~= from) by {
        assert forall|i: int| 0 <= i < n implies s.subrange(at + 4, at + 4 + n)[i] == from[i] by {
            assert(s[at + 4 + i] == d[4 + i]);
        }
    }
    lemma_lex_word::<Token>(s, at + 4, from);
    lemma_lex_symbol::<Token>(s, at + 4 + n);
    assert(s[at + 6 + n] == to[0]) by {
        assert(s[at + 6 + n] == d[6 + n + 0]);
    }
    lemma_lex_blank::<Token>(s, at + 5 + n);
    assert(s.subrange(at + 6 + n, at + 6 + n + m) =~= to) by {
        assert forall|i: int| 0 <= i < m implies s.subrange(at + 6 + n, at + 6 + n + m)[i]
            == to[i] by {
            assert(s[at + 6 + n + i] == d[6 + n + i]);
        }
    }
    lemma_lex_word::<Token>(s, at + 6 + n, to);
    lemma_lex_symbol::<Token>(s, at + 6 + n + m);
    assert(lexemes_from::<Token>(s, at) =~= attack_tokens(at, n, m) + lexemes_from::<Token>(
        s,
        at + n + m + 7,
    ));
}

/// How many characters the statements of an argument take.
pub open spec fn argument_len(a: ArgumentView) -> int {
    if a.optional {
        (2 * a.id.len() + 19) as int
    } else {
        (a.id.len() + 7) as int
    }
}

/// How many characters the statements of an attack take.
pub open spec fn attack_len(a: AttackView) -> int {
    if a.optional {
        (2 * (a.from.len() + a.to.len()) + 23) as int
    } else {
        (a.from.len() + a.to.len() + 9) as int
    }
}

/// The tokens of the statements of an argument, where the statements begin
/// at the place `at`.
pub open spec fn argument_statement_tokens(at: int, a: ArgumentView) -> Seq<Lexeme<Token>> {
    let n = a.id.len() as int;
    if a.optional {
        argument_tokens(at, n) + seq![
            lexeme(Token::Period, at + n + 5, at + n + 6),
            lexeme(Token::Optional, at + n + 7, at + n + 10),
            lexeme(Token::LeftParen, at + n + 10, at + n + 11),
        ] + argument_tokens(at + n + 11, n) + seq![
            lexeme(Token::RightParen, at + 2 * n + 16, at + 2 * n + 17),
            lexeme(Token::Period, at + 2 * n + 17, at + 2 * n + 18),
        ]
    } else {
        argument_tokens(at, n) + seq![lexeme(Token::Period, at + n + 5, at + n + 6)]
    }
}

/// The tokens of the statements of an attack, where the statements begin at
/// the place `at`.
pub open spec fn attack_statement_tokens(at: int, a: AttackView) -> Seq<Lexeme<Token>> {
    let n = a.from.len() as int;
    let m = a.to.len() as int;
    let d = n + m + 7;
    if a.optional {
        attack_tokens(at, n, m) + seq![
            lexeme(Token::Period, at + d, at + d + 1),
            lexeme(Token::Optional, at + d + 2, at + d + 5),
            lexeme(Token::LeftParen, at + d + 5, at + d + 6),
        ] + attack_tokens(at + d + 6, n, m) + seq![
            lexeme(Token::RightParen, at + 2 * d + 6, at + 2 * d + 7),
            lexeme(Token::Period, at + 2 * d + 7, at + 2 * d + 8),
        ]
    } else {
        attack_tokens(at, n, m) + seq![lexeme(Token::Period, at + d, at + d + 1)]
    }
}

/// Whether a statement can begin at the place `at`, or the text ends
/// there: no line break stands there.
pub open spec fn statement_boundary(s: Seq<char>, at: int) -> bool {
    at == s.len() || (0 <= at < s.len() && s[at] != '\n' && s[at] != '\r')
}

/// Where two texts stand one behind the other, each of them stands at its
/// place.
pub proof fn lemma_split(s: Seq<char>, at: int, first: Seq<char>, second: Seq<char>)
    requires
        0 <= at,
        at + first.len() + second.len() <= s.len(),
        s.subrange(at, at + first.len() + second.len()) == first + second,
    ensures
        s.subrange(at, at + first.len()) == first,
        s.subrange(at + first.len(), at + first.len() + second.len()) == second,
{
    let whole = s.subrange(at, at + first.len() + second.len());
    assert forall|i: int| 0 <= i < first.len() implies s.subrange(at, at + first.len())[i]
        == first[i] by {
        assert(whole[i] == s[at + i]);
        assert((first + second)[i] == first[i]);
    }
    assert(s.subrange(at, at + first.len()) =~= first);
    assert forall|i: int| 0 <= i < second.len() implies s.subrange(
        at + first.len(),
        at + first.len() + second.len(),
    )[i] == second[i] by {
        assert(whole[first.len() + i] == s[at + first.len() + i]);
        assert((first + second)[first.len() + i] == second[i]);
    }
    assert(s.subrange(at + first.len(), at + first.len() + second.len()) =~= second);
}

/// The period that closes a statement, and the line break behind it.
pub proof fn lemma_lex_close(s: Seq<char>, at: int)
    requires
        0 <= at,
        at + 2 <= s.len(),
        s.len() <= usize::MAX,
        s.subrange(at, at + 2) == ".\n"@,
        statement_boundary(s, at + 2),
    ensures
        lexemes_from::<Token>(s, at) == seq![lexeme(Token::Period, at, at + 1)] + lexemes_from::<
            Token,
        >(s, at + 2),
{
    lemma_fixed_texts();
    assert(s.subrange(at, at + 2)[0] == s[at]);
    assert(s.subrange(at, at + 2)[1] == s[at + 1]);
    lemma_lex_symbol::<Token>(s, at);
    lemma_lex_blank::<Token>(s, at + 1);
}

/// The period that closes a declaration, and the beginning of the mark
/// behind it.
pub proof fn lemma_lex_mark_open(s: Seq<char>, at: int)
    requires
        0 <= at,
        at + 6 < s.len(),
        s.len() <= usize::MAX,
        s.subrange(at, at + 6) == ". opt("@,
    ensures
        lexemes_from::<Token>(s, at) == seq![
            lexeme(Token::Period, at, at + 1),
            lexeme(Token::Optional, at + 2, at + 5),
            lexeme(Token::LeftParen, at + 5, at + 6),
        ] + lexemes_from::<Token>(s, at + 6),
{
    lemma_fixed_texts();
    let piece = s.subrange(at, at + 6);
    assert(piece[0] == s[at]);
    assert(piece[1] == s[at + 1]);
    assert(piece[2] == s[at + 2]);
    assert(piece[3] == s[at + 3]);
    assert(piece[4] == s[at + 4]);
    assert(piece[5] == s[at + 5]);
    lemma_lex_symbol::<Token>(s, at);
    lemma_lex_blank::<Token>(s, at + 1);
    assert(s.subrange(at + 2, at + 5) =~= "opt"@);
    assert(is_name("opt"@));
    lemma_lex_word::<Token>(s, at + 2, "opt"@);
    lemma_lex_symbol::<Token>(s, at + 5);
    assert(lexemes_from::<Token>(s, at) =~= seq![
        lexeme(Token::Period, at, at + 1),
        lexeme(Token::Optional, at + 2, at + 5),
        lexeme(Token::LeftParen, at + 5, at + 6),
    ] + lexemes_from::<Token>(s, at + 6));
}

/// The end of a mark: the parenthesis, the period and the line break.
pub proof fn lemma_lex_mark_close(s: Seq<char>, at: int)
    requires
        0 <= at,
        at + 3 <= s.len(),
        s.len() <= usize::MAX,
        s.subrange(at, at + 3) == ").\n"@,
        statement_boundary(s, at + 3),
    ensures
        lexemes_from::<Token>(s, at) == seq![
            lexeme(Token::RightParen, at, at + 1),
            lexeme(Token::Period, at + 1, at + 2),
        ] + lexemes_from::<Token>(s, at + 3),
{
    lemma_fixed_texts();
    let piece = s.subrange(at, at + 3);
    assert(piece[0] == s[at]);
    assert(piece[1] == s[at + 1]);
    assert(piece[2] == s[at + 2]);
    lemma_lex_symbol::<Token>(s, at);
    lemma_lex_symbol::<Token>(s, at + 1);
    lemma_lex_blank::<Token>(s, at + 2);
    assert(lexemes_from::<Token>(s, at) =~= seq![
        lexeme(Token::RightParen, at, at + 1),
        lexeme(Token::Period, at + 1, at + 2),
    ] + lexemes_from::<Token>(s, at + 3));
}

/// The statements of an argument are read as their tokens.
pub proof fn lemma_lex_argument(s: Seq<char>, at: int, a: ArgumentView)
    requires
        0 <= at,
        at + argument_len(a) <= s.len(),
        s.len() <= usize::MAX,
        s.subrange(at, at + argument_len(a)) == argument_statements(a),
        nameable(a.id),
        statement_boundary(s, at + argument_len(a)),
    ensures
        lexemes_from::<Token>(s, at) == argument_statement_tokens(at, a) + lexemes_from::<Token>(
            s,
            at + argument_len(a),
        ),
{
    lemma_fixed_texts();
    let n = a.id.len() as int;
    let d = argument_declaration(a.id);
    assert(d.len() == n + 5);
    if a.optional {
        let open = ". opt("@;
        let close = ").\n"@;
        assert(argument_statements(a) == ((d + open) + d) + close);
        lemma_split(s, at, (d + open) + d, close);
        lemma_split(s, at, d + open, d);
        lemma_split(s, at, d, open);
        lemma_lex_argument_declaration(s, at, a.id);
        lemma_lex_mark_open(s, at + n + 5);
        lemma_lex_argument_declaration(s, at + n + 11, a.id);
        lemma_lex_mark_close(s, at + 2 * n + 16);
        assert(lexemes_from::<Token>(s, at) =~= argument_statement_tokens(at, a) + lexemes_from::<
            Token,
        >(s, at + argument_len(a)));
    } else {
        let close = ".\n"@;
        assert(argument_statements(a) == d + close);
        lemma_split(s, at, d, close);
        lemma_lex_argument_declaration(s, at, a.id);
        lemma_lex_close(s, at + n + 5);
        assert(lexemes_from::<Token>(s, at) =~= argument_statement_tokens(at, a) + lexemes_from::<
            Token,
        >(s, at + argument_len(a)));
    }
}

/// The statements of an attack are read as their tokens.
pub proof fn lemma_lex_attack(s: Seq<char>, at: int, a: AttackView)
    requires
        0 <= at,
        at + attack_len(a) <= s.len(),
        s.len() <= usize::MAX,
        s.subrange(at, at + attack_len(a)) == attack_statements(a),
        nameable(a.from),
        nameable(a.to),
        statement_boundary(s, at + attack_len(a)),
    ensures
        lexemes_from::<Token>(s, at) == attack_statement_tokens(at, a) + lexemes_from::<Token>(
            s,
            at + attack_len(a),
        ),
{
    lemma_fixed_texts();
    let n = a.from.len() as int;
    let m = a.to.len() as int;
    let dl = n + m + 7;
    let d = attack_declaration(a.from, a.to);
    assert(d.len() == dl);
    if a.optional {
        let open = ". opt("@;
        let close = ").\n"@;
        assert(attack_statements(a) == ((d + open) + d) + close);
        lemma_split(s, at, (d + open) + d, close);
        lemma_split(s, at, d + open, d);
        lemma_split(s, at, d, open);
        lemma_lex_attack_declaration(s, at, a.from, a.to);
        lemma_lex_mark_open(s, at + dl);
        lemma_lex_attack_declaration(s, at + dl + 6, a.from, a.to);
        lemma_lex_mark_close(s, at + 2 * dl + 6);
        assert(lexemes_from::<Token>(s, at) =~= attack_statement_tokens(at, a) + lexemes_from::<
            Token,
        >(s, at + attack_len(a)));
    } else {
        let close = ".\n"@;
        assert(attack_statements(a) == d + close);
        lemma_split(s, at, d, close);
        lemma_lex_attack_declaration(s, at, a.from, a.to);
        lemma_lex_close(s, at + dl);
        assert(lexemes_from::<Token>(s, at) =~= attack_statement_tokens(at, a) + lexemes_from::<
            Token,
        >(s, at + attack_len(a)));
    }
}

/// A pattern stands where every one of its tokens stands.
pub proof fn lemma_stands<T>(lexemes: Seq<Lexeme<T>>, at: int, pattern: Seq<T>)
    requires
        0 <= at,
        at + pattern.len() <= lexemes.len(),
        forall|j: int| 0 <= j < pattern.len() ==> (#[trigger] lexemes[at + j]).token == pattern[j],
    ensures
        stands(lexemes, at, pattern),
        agreement(lexemes, at, pattern) == pattern.len(),
    decreases pattern.len(),
{
    if pattern.len() > 0 {
        assert(lexemes[at + 0].token == pattern[0]);
        let rest = pattern.drop_first();
        assert forall|j: int| 0 <= j < rest.len() implies (#[trigger] lexemes[at + 1 + j]).token
            == rest[j] by {
            assert(lexemes[at + (j + 1)].token == pattern[j + 1]);
        }
        lemma_stands(lexemes, at + 1, rest);
    }
}

/// Whether the tokens `tokens` stand in `lexemes` from the place `k` on.
pub open spec fn holds_at<T>(lexemes: Seq<Lexeme<T>>, k: int, tokens: Seq<Lexeme<T>>) -> bool {
    &&& 0 <= k
    &&& k + tokens.len() <= lexemes.len()
    &&& forall|j: int| 0 <= j < tokens.len() ==> #[trigger] lexemes[k + j] == tokens[j]
}

/// Where the tokens of a text stand, followed by others, each of them
/// stands at its place.
pub proof fn lemma_holds_at<T>(
    lexemes: Seq<Lexeme<T>>,
    k: int,
    tokens: Seq<Lexeme<T>>,
    rest: Seq<Lexeme<T>>,
)
    requires
        0 <= k <= lexemes.len(),
        lexemes.skip(k) == tokens + rest,
    ensures
        holds_at(lexemes, k, tokens),
        lexemes.skip(k + tokens.len()) == rest,
{
    assert(lexemes.skip(k).len() == tokens.len() + rest.len());
    assert forall|j: int| 0 <= j < tokens.len() implies #[trigger] lexemes[k + j] == tokens[j] by {
        assert(lexemes.skip(k)[j] == lexemes[k + j]);
        assert((tokens + rest)[j] == tokens[j]);
    }
    assert(lexemes.skip(k + tokens.len()) =~= rest) by {
        assert forall|j: int| 0 <= j < rest.len() implies lexemes.skip(k + tokens.len())[j]
            == rest[j] by {
            assert(lexemes.skip(k)[tokens.len() + j] == lexemes[k + tokens.len() + j]);
            assert((tokens + rest)[tokens.len() + j] == rest[j]);
        }
    }
}

/// The statement that declares an argument is read as such.
pub proof fn lemma_parse_argument_declaration(
    s: Seq<char>,
    lexemes: Seq<Lexeme<Token>>,
    k: int,
    at: int,
    id: Seq<char>,
    so_far: Parsed,
)
    requires
        0 <= at,
        at + id.len() + 6 <= s.len() <= usize::MAX,
        s.subrange(at + 4, at + 4 + id.len()) == id,
        holds_at(
            lexemes,
            k,
            argument_tokens(at, id.len() as int) + seq![
                lexeme(Token::Period, at + id.len() + 5, at + id.len() + 6),
            ],
        ),
    ensures
        statements_from(s, lexemes, k, so_far) == statements_from(
            s,
            lexemes,
            k + 5,
            Parsed {
                args: so_far.args.push(ArgumentView { id, optional: false }),
                ..so_far
            },
        ),
{
    let n = id.len() as int;
    let tokens = argument_tokens(at, n) + seq![lexeme(Token::Period, at + n + 5, at + n + 6)];
    assert(tokens.len() == 5);
    assert(lexemes[k + 0] == tokens[0]);
    assert(lexemes[k + 1] == tokens[1]);
    assert(lexemes[k + 2] == tokens[2]);
    assert(lexemes[k + 3] == tokens[3]);
    assert(lexemes[k + 4] == tokens[4]);
    assert(lexemes[k].token == Token::Arg);
    assert(rest_of_statement(lexemes, k) == after_arg());
    lemma_stands(lexemes, k + 1, after_arg());
    assert(text(s, lexemes[k + 2]) == id);
}

/// The statement that marks an argument as optional is read as such.
pub proof fn lemma_parse_argument_mark(
    s: Seq<char>,
    lexemes: Seq<Lexeme<Token>>,
    k: int,
    at: int,
    id: Seq<char>,
    so_far: Parsed,
)
    requires
        0 <= at,
        at + id.len() + 12 <= s.len() <= usize::MAX,
        s.subrange(at + 9, at + 9 + id.len()) == id,
        holds_at(
            lexemes,
            k,
            seq![
                lexeme(Token::Optional, at + 1, at + 4),
                lexeme(Token::LeftParen, at + 4, at + 5),
            ] + argument_tokens(at + 5, id.len() as int) + seq![
                lexeme(Token::RightParen, at + id.len() + 10, at + id.len() + 11),
                lexeme(Token::Period, at + id.len() + 11, at + id.len() + 12),
            ],
        ),
    ensures
        statements_from(s, lexemes, k, so_far) == statements_from(
            s,
            lexemes,
            k + 8,
            Parsed { markers: so_far.markers.push(Marker::Argument { id }), ..so_far },
        ),
{
    let n = id.len() as int;
    let tokens = seq![
        lexeme(Token::Optional, at + 1, at + 4),
        lexeme(Token::LeftParen, at + 4, at + 5),
    ] + argument_tokens(at + 5, n) + seq![
        lexeme(Token::RightParen, at + n + 10, at + n + 11),
        lexeme(Token::Period, at + n + 11, at + n + 12),
    ];
    assert(tokens.len() == 8);
    assert(lexemes[k + 0] == tokens[0]);
    assert(lexemes[k + 1] == tokens[1]);
    assert(lexemes[k + 2] == tokens[2]);
    assert(lexemes[k + 3] == tokens[3]);
    assert(lexemes[k + 4] == tokens[4]);
    assert(lexemes[k + 5] == tokens[5]);
    assert(lexemes[k + 6] == tokens[6]);
    assert(lexemes[k + 7] == tokens[7]);
    assert(lexemes[k].token == Token::Optional);
    assert(!marks_attack(lexemes, k));
    assert(rest_of_statement(lexemes, k) == after_opt_arg());
    lemma_stands(lexemes, k + 1, after_opt_arg());
    assert(text(s, lexemes[k + 4]) == id);
}

/// The statement that declares an attack is read as such.
pub proof fn lemma_parse_attack_declaration(
    s: Seq<char>,
    lexemes: Seq<Lexeme<Token>>,
    k: int,
    at: int,
    from: Seq<char>,
    to: Seq<char>,
    so_far: Parsed,
)
    requires
        0 <= at,
        at + from.len() + to.len() + 8 <= s.len() <= usize::MAX,
        s.subrange(at + 4, at + 4 + from.len()) == from,
        s.subrange(at + 6 + from.len(), at + 6 + from.len() + to.len()) == to,
        holds_at(
            lexemes,
            k,
            attack_tokens(at, from.len() as int, to.len() as int) + seq![
                lexeme(
                    Token::Period,
                    at + from.len() + to.len() + 7,
                    at + from.len() + to.len() + 8,
                ),
            ],
        ),
    ensures
        statements_from(s, lexemes, k, so_far) == statements_from(
            s,
            lexemes,
            k + 7,
            Parsed {
                attacks: so_far.attacks.push(AttackView { from, to, optional: false }),
                ..so_far
            },
        ),
{
    let n = from.len() as int;
    let m = to.len() as int;
    let tokens = attack_tokens(at, n, m) + seq![
        lexeme(Token::Period, at + n + m + 7, at + n + m + 8),
    ];
    assert(tokens.len() == 7);
    assert(lexemes[k + 0] == tokens[0]);
    assert(lexemes[k + 1] == tokens[1]);
    assert(lexemes[k + 2] == tokens[2]);
    assert(lexemes[k + 3] == tokens[3]);
    assert(lexemes[k + 4] == tokens[4]);
    assert(lexemes[k + 5] == tokens[5]);
    assert(lexemes[k + 6] == tokens[6]);
    assert(lexemes[k].token == Token::Attack);
    assert(rest_of_statement(lexemes, k) == after_att());
    lemma_stands(lexemes, k + 1, after_att());
    assert(text(s, lexemes[k + 2]) == from);
    assert(text(s, lexemes[k + 4]) == to);
}

/// The statement that marks an attack as optional is read as such.
pub proof fn lemma_parse_attack_mark(
    s: Seq<char>,
    lexemes: Seq<Lexeme<Token>>,
    k: int,
    at: int,
    from: Seq<char>,
    to: Seq<char>,
    so_far: Parsed,
)
    requires
        0 <= at,
        at + from.len() + to.len() + 14 <= s.len() <= usize::MAX,
        s.subrange(at + 9, at + 9 + from.len()) == from,
        s.subrange(at + 11 + from.len(), at + 11 + from.len() + to.len()) == to,
        holds_at(
            lexemes,
            k,
            seq![
                lexeme(Token::Optional, at + 1, at + 4),
                lexeme(Token::LeftParen, at + 4, at + 5),
            ] + attack_tokens(at + 5, from.len() as int, to.len() as int) + seq![
                lexeme(
                    Token::RightParen,
                    at + from.len() + to.len() + 12,
                    at + from.len() + to.len() + 13,
                ),
                lexeme(
                    Token::Period,
                    at + from.len() + to.len() + 13,
                    at + from.len() + to.len() + 14,
                ),
            ],
        ),
    ensures
        statements_from(s, lexemes, k, so_far) == statements_from(
            s,
            lexemes,
            k + 10,
            Parsed { markers: so_far.markers.push(Marker::Attack { from, to }), ..so_far },
        ),
{
    let n = from.len() as int;
    let m = to.len() as int;
    let tokens = seq![
        lexeme(Token::Optional, at + 1, at + 4),
        lexeme(Token::LeftParen, at + 4, at + 5),
    ] + attack_tokens(at + 5, n, m) + seq![
        lexeme(Token::RightParen, at + n + m + 12, at + n + m + 13),
        lexeme(Token::Period, at + n + m + 13, at + n + m + 14),
    ];
    assert(tokens.len() == 10);
    assert(lexemes[k + 0] == tokens[0]);
    assert(lexemes[k + 1] == tokens[1]);
    assert(lexemes[k + 2] == tokens[2]);
    assert(lexemes[k + 3] == tokens[3]);
    assert(lexemes[k + 4] == tokens[4]);
    assert(lexemes[k + 5] == tokens[5]);
    assert(lexemes[k + 6] == tokens[6]);
    assert(lexemes[k + 7] == tokens[7]);
    assert(lexemes[k + 8] == tokens[8]);
    assert(lexemes[k + 9] == tokens[9]);
    assert(lexemes[k].token == Token::Optional);
    assert(marks_attack(lexemes, k));
    assert(rest_of_statement(lexemes, k) == after_opt_att());
    lemma_stands(lexemes, k + 1, after_opt_att());
    assert(text(s, lexemes[k + 4]) == from);
    assert(text(s, lexemes[k + 6]) == to);
}

/// What is known once the statements of an argument have been read: the
/// argument is declared, and marked if it is optional.
pub open spec fn with_argument(so_far: Parsed, a: ArgumentView) -> Parsed {
    Parsed {
        args: so_far.args.push(ArgumentView { id: a.id, optional: false }),
        attacks: so_far.attacks,
        markers: if a.optional {
            so_far.markers.push(Marker::Argument { id: a.id })
        } else {
            so_far.markers
        },
    }
}

/// What is known once the statements of an attack have been read.
pub open spec fn with_attack(so_far: Parsed, a: AttackView) -> Parsed {
    Parsed {
        args: so_far.args,
        attacks: so_far.attacks.push(AttackView { from: a.from, to: a.to, optional: false }),
        markers: if a.optional {
            so_far.markers.push(Marker::Attack { from: a.from, to: a.to })
        } else {
            so_far.markers
        },
    }
}

/// How many tokens the statements of an element take.
pub open spec fn argument_token_count(a: ArgumentView) -> int {
    if a.optional {
        13
    } else {
        5
    }
}

/// How many tokens the statements of an attack take.
pub open spec fn attack_token_count(a: AttackView) -> int {
    if a.optional {
        17
    } else {
        7
    }
}

/// The statements of an argument, where they stand in a text, are read as
/// the declaration of the argument and, if it is optional, its mark.
pub proof fn lemma_read_argument(
    s: Seq<char>,
    lexemes: Seq<Lexeme<Token>>,
    k: int,
    at: int,
    a: ArgumentView,
    so_far: Parsed,
)
    requires
        0 <= k <= lexemes.len(),
        0 <= at,
        at + argument_len(a) <= s.len() <= usize::MAX,
        lexemes.skip(k) == lexemes_from::<Token>(s, at),
        s.subrange(at, at + argument_len(a)) == argument_statements(a),
        nameable(a.id),
        statement_boundary(s, at + argument_len(a)),
    ensures
        k + argument_token_count(a) <= lexemes.len(),
        lexemes.skip(k + argument_token_count(a)) == lexemes_from::<Token>(
            s,
            at + argument_len(a),
        ),
        statements_from(s, lexemes, k, so_far) == statements_from(
            s,
            lexemes,
            k + argument_token_count(a),
            with_argument(so_far, a),
        ),
{
    lemma_fixed_texts();
    let n = a.id.len() as int;
    let d = argument_declaration(a.id);
    let tokens = argument_statement_tokens(at, a);
    let rest = lexemes_from::<Token>(s, at + argument_len(a));
    lemma_lex_argument(s, at, a);
    lemma_holds_at(lexemes, k, tokens, rest);
    let declared = Parsed {
        args: so_far.args.push(ArgumentView { id: a.id, optional: false }),
        ..so_far
    };
    if a.optional {
        let open = ". opt("@;
        let close = ").\n"@;
        assert(argument_statements(a) == ((d + open) + d) + close);
        lemma_split(s, at, (d + open) + d, close);
        lemma_split(s, at, d + open, d);
        lemma_split(s, at, d, open);
        assert(d == ("arg("@ + a.id) + ")"@);
        lemma_split(s, at, "arg("@ + a.id, ")"@);
        lemma_split(s, at, "arg("@, a.id);
        lemma_split(s, at + n + 11, "arg("@ + a.id, ")"@);
        lemma_split(s, at + n + 11, "arg("@, a.id);
        let first = argument_tokens(at, n) + seq![lexeme(Token::Period, at + n + 5, at + n + 6)];
        assert(holds_at(lexemes, k, first)) by {
            assert forall|j: int| 0 <= j < first.len() implies #[trigger] lexemes[k + j]
                == first[j] by {
                assert(tokens[j] == first[j]);
            }
        }
        lemma_parse_argument_declaration(s, lexemes, k, at, a.id, so_far);
        let mark_at = at + n + 6;
        let second = seq![
            lexeme(Token::Optional, mark_at + 1, mark_at + 4),
            lexeme(Token::LeftParen, mark_at + 4, mark_at + 5),
        ] + argument_tokens(mark_at + 5, n) + seq![
            lexeme(Token::RightParen, mark_at + n + 10, mark_at + n + 11),
            lexeme(Token::Period, mark_at + n + 11, mark_at + n + 12),
        ];
        assert(holds_at(lexemes, k + 5, second)) by {
            assert forall|j: int| 0 <= j < second.len() implies #[trigger] lexemes[k + 5 + j]
                == second[j] by {
                assert(lexemes[k + (5 + j)] == tokens[5 + j]);
                assert(tokens[5 + j] == second[j]);
            }
        }
        lemma_parse_argument_mark(s, lexemes, k + 5, mark_at, a.id, declared);
    } else {
        let close = ".\n"@;
        assert(argument_statements(a) == d + close);
        lemma_split(s, at, d, close);
        assert(d == ("arg("@ + a.id) + ")"@);
        lemma_split(s, at, "arg("@ + a.id, ")"@);
        lemma_split(s, at, "arg("@, a.id);
        lemma_parse_argument_declaration(s, lexemes, k, at, a.id, so_far);
    }
}

/// Where the declaration of an attack stands, its two names stand.
pub proof fn lemma_attack_names(s: Seq<char>, at: int, from: Seq<char>, to: Seq<char>)
    requires
        0 <= at,
        at + from.len() + to.len() + 7 <= s.len(),
        s.subrange(at, at + from.len() + to.len() + 7) == attack_declaration(from, to),
    ensures
        s.subrange(at + 4, at + 4 + from.len()) == from,
        s.subrange(at + 6 + from.len(), at + 6 + from.len() + to.len()) == to,
{
    lemma_fixed_texts();
    assert(attack_declaration(from, to) == ((("att("@ + from) + ", "@) + to) + ")"@);
    lemma_split(s, at, (("att("@ + from) + ", "@) + to, ")"@);
    lemma_split(s, at, ("att("@ + from) + ", "@, to);
    lemma_split(s, at, "att("@ + from, ", "@);
    lemma_split(s, at, "att("@, from);
}

/// Where the statements of an optional attack stand, its declaration
/// stands twice.
pub proof fn lemma_optional_attack_parts(s: Seq<char>, at: int, a: AttackView)
    requires
        0 <= at,
        a.optional,
        at + attack_len(a) <= s.len(),
        s.subrange(at, at + attack_len(a)) == attack_statements(a),
    ensures
        s.subrange(at, at + a.from.len() + a.to.len() + 7) == attack_declaration(a.from, a.to),
        s.subrange(
            at + a.from.len() + a.to.len() + 13,
            at + 2 * (a.from.len() + a.to.len()) + 20,
        ) == attack_declaration(a.from, a.to),
{
    lemma_fixed_texts();
    let d = attack_declaration(a.from, a.to);
    let open = ". opt("@;
    let close = ").\n"@;
    assert(d.len() == a.from.len() + a.to.len() + 7);
    assert(attack_statements(a) == ((d + open) + d) + close);
    lemma_split(s, at, (d + open) + d, close);
    lemma_split(s, at, d + open, d);
    lemma_split(s, at, d, open);
}

/// The statements of an attack that is not optional, where they stand in
/// a text, are read as the declaration of the attack.
pub proof fn lemma_read_plain_attack(
    s: Seq<char>,
    lexemes: Seq<Lexeme<Token>>,
    k: int,
    at: int,
    a: AttackView,
    so_far: Parsed,
)
    requires
        !a.optional,
        0 <= k <= lexemes.len(),
        0 <= at,
        at + attack_len(a) <= s.len() <= usize::MAX,
        lexemes.skip(k) == lexemes_from::<Token>(s, at),
        s.subrange(at, at + attack_len(a)) == attack_statements(a),
        nameable(a.from),
        nameable(a.to),
        statement_boundary(s, at + attack_len(a)),
    ensures
        k + 7 <= lexemes.len(),
        lexemes.skip(k + 7) == lexemes_from::<Token>(s, at + attack_len(a)),
        statements_from(s, lexemes, k, so_far) == statements_from(
            s,
            lexemes,
            k + 7,
            with_attack(so_far, a),
        ),
{
    lemma_fixed_texts();
    let d = attack_declaration(a.from, a.to);
    let tokens = attack_statement_tokens(at, a);
    let rest = lexemes_from::<Token>(s, at + attack_len(a));
    lemma_lex_attack(s, at, a);
    lemma_holds_at(lexemes, k, tokens, rest);
    assert(d.len() == a.from.len() + a.to.len() + 7);
    assert(attack_statements(a) == d + ".\n"@);
    lemma_split(s, at, d, ".\n"@);
    lemma_attack_names(s, at, a.from, a.to);
    lemma_parse_attack_declaration(s, lexemes, k, at, a.from, a.to, so_far);
}

/// The statements of an optional attack, where they stand in a text, are
/// read as the declaration of the attack and its mark.
pub proof fn lemma_read_optional_attack(
    s: Seq<char>,
    lexemes: Seq<Lexeme<Token>>,
    k: int,
    at: int,
    a: AttackView,
    so_far: Parsed,
)
    requires
        a.optional,
        0 <= k <= lexemes.len(),
        0 <= at,
        at + attack_len(a) <= s.len() <= usize::MAX,
        lexemes.skip(k) == lexemes_from::<Token>(s, at),
        s.subrange(at, at + attack_len(a)) == attack_statements(a),
        nameable(a.from),
        nameable(a.to),
        statement_boundary(s, at + attack_len(a)),
    ensures
        k + 17 <= lexemes.len(),
        lexemes.skip(k + 17) == lexemes_from::<Token>(s, at + attack_len(a)),
        statements_from(s, lexemes, k, so_far) == statements_from(
            s,
            lexemes,
            k + 17,
            with_attack(so_far, a),
        ),
{
    let n = a.from.len() as int;
    let m = a.to.len() as int;
    let dl = n + m + 7;
    let tokens = attack_statement_tokens(at, a);
    let rest = lexemes_from::<Token>(s, at + attack_len(a));
    lemma_lex_attack(s, at, a);
    lemma_holds_at(lexemes, k, tokens, rest);
    lemma_optional_attack_parts(s, at, a);
    lemma_attack_names(s, at, a.from, a.to);
    lemma_attack_names(s, at + dl + 6, a.from, a.to);
    let declared = Parsed {
        attacks: so_far.attacks.push(AttackView { from: a.from, to: a.to, optional: false }),
        ..so_far
    };
    let first = attack_tokens(at, n, m) + seq![lexeme(Token::Period, at + dl, at + dl + 1)];
    assert(holds_at(lexemes, k, first)) by {
        assert forall|j: int| 0 <= j < first.len() implies #[trigger] lexemes[k + j] == first[j] by {
            assert(tokens[j] == first[j]);
        }
    }
    lemma_parse_attack_declaration(s, lexemes, k, at, a.from, a.to, so_far);
    let mark_at = at + dl + 1;
    let second = seq![
        lexeme(Token::Optional, mark_at + 1, mark_at + 4),
        lexeme(Token::LeftParen, mark_at + 4, mark_at + 5),
    ] + attack_tokens(mark_at + 5, n, m) + seq![
        lexeme(Token::RightParen, mark_at + n + m + 12, mark_at + n + m + 13),
        lexeme(Token::Period, mark_at + n + m + 13, mark_at + n + m + 14),
    ];
    assert(holds_at(lexemes, k + 7, second)) by {
        assert forall|j: int| 0 <= j < second.len() implies #[trigger] lexemes[k + 7 + j]
            == second[j] by {
            assert(lexemes[k + (7 + j)] == tokens[7 + j]);
            assert(tokens[7 + j] == second[j]);
        }
    }
    lemma_parse_attack_mark(s, lexemes, k + 7, mark_at, a.from, a.to, declared);
}

/// The statements of an attack, where they stand in a text, are read as
/// the declaration of the attack and, if it is optional, its mark.
pub proof fn lemma_read_attack(
    s: Seq<char>,
    lexemes: Seq<Lexeme<Token>>,
    k: int,
    at: int,
    a: AttackView,
    so_far: Parsed,
)
    requires
        0 <= k <= lexemes.len(),
        0 <= at,
        at + attack_len(a) <= s.len() <= usize::MAX,
        lexemes.skip(k) == lexemes_from::<Token>(s, at),
        s.subrange(at, at + attack_len(a)) == attack_statements(a),
        nameable(a.from),
        nameable(a.to),
        statement_boundary(s, at + attack_len(a)),
    ensures
        k + attack_token_count(a) <= lexemes.len(),
        lexemes.skip(k + attack_token_count(a)) == lexemes_from::<Token>(s, at + attack_len(a)),
        statements_from(s, lexemes, k, so_far) == statements_from(
            s,
            lexemes,
            k + attack_token_count(a),
            with_attack(so_far, a),
        ),
{
    if a.optional {
        lemma_read_optional_attack(s, lexemes, k, at, a, so_far);
    } else {
        lemma_read_plain_attack(s, lexemes, k, at, a, so_far);
    }
}

/// The text of the arguments is the statements of the first, then the text
/// of the others.
pub proof fn lemma_arguments_text_front(args: Seq<ArgumentView>)
    requires
        args.len() > 0,
    ensures
        arguments_text(args) == argument_statements(args[0]) + arguments_text(args.drop_first()),
    decreases args.len(),
{
    if args.len() == 1 {
        assert(args.drop_last().len() == 0);
        assert(args.drop_first().len() == 0);
        assert(args.last() == args[0]);
        assert(arguments_text(args.drop_last()) =~= Seq::<char>::empty());
        assert(arguments_text(args.drop_first()) =~= Seq::<char>::empty());
        assert(arguments_text(args) =~= argument_statements(args[0]));
        assert(argument_statements(args[0]) + Seq::<char>::empty() =~= argument_statements(args[0]));
    } else {
        lemma_arguments_text_front(args.drop_last());
        assert(args.drop_last()[0] == args[0]);
        assert(args.drop_last().drop_first() == args.drop_first().drop_last());
        assert(args.drop_first().last() == args.last());
        assert(arguments_text(args) =~= argument_statements(args[0]) + arguments_text(
            args.drop_first(),
        ));
    }
}

/// The text of the attacks is the statements of the first, then the text
/// of the others.
pub proof fn lemma_attacks_text_front(attacks: Seq<AttackView>)
    requires
        attacks.len() > 0,
    ensures
        attacks_text(attacks) == attack_statements(attacks[0]) + attacks_text(attacks.drop_first()),
    decreases attacks.len(),
{
    if attacks.len() == 1 {
        assert(attacks.drop_last().len() == 0);
        assert(attacks.drop_first().len() == 0);
        assert(attacks.last() == attacks[0]);
        assert(attacks_text(attacks.drop_last()) =~= Seq::<char>::empty());
        assert(attacks_text(attacks.drop_first()) =~= Seq::<char>::empty());
        assert(attacks_text(attacks) =~= attack_statements(attacks[0]));
        assert(attack_statements(attacks[0]) + Seq::<char>::empty() =~= attack_statements(
            attacks[0],
        ));
    } else {
        lemma_attacks_text_front(attacks.drop_last());
        assert(attacks.drop_last()[0] == attacks[0]);
        assert(attacks.drop_last().drop_first() == attacks.drop_first().drop_last());
        assert(attacks.drop_first().last() == attacks.last());
        assert(attacks_text(attacks) =~= attack_statements(attacks[0]) + attacks_text(
            attacks.drop_first(),
        ));
    }
}

/// The statements of an element take as many characters as counted, and
/// begin with the letter `a`.
pub proof fn lemma_statement_shape(a: ArgumentView, b: AttackView)
    ensures
        argument_statements(a).len() == argument_len(a),
        attack_statements(b).len() == attack_len(b),
        argument_statements(a)[0] == 'a',
        attack_statements(b)[0] == 'a',
{
    lemma_fixed_texts();
}

/// A text of statements that is not empty begins with the letter `a`.
pub proof fn lemma_text_begins(args: Seq<ArgumentView>, attacks: Seq<AttackView>)
    ensures
        (arguments_text(args) + attacks_text(attacks)).len() > 0 ==> (arguments_text(args)
            + attacks_text(attacks))[0] == 'a',
{
    if args.len() > 0 {
        lemma_arguments_text_front(args);
        lemma_statement_shape(args[0], AttackView { from: seq![], to: seq![], optional: false });
    } else if attacks.len() > 0 {
        lemma_attacks_text_front(attacks);
        lemma_statement_shape(ArgumentView { id: seq![], optional: false }, attacks[0]);
        assert(arguments_text(args).len() == 0);
    } else {
        assert(arguments_text(args).len() == 0);
        assert(attacks_text(attacks).len() == 0);
    }
}

/// What is known once the statements of the arguments have been read.
pub open spec fn with_arguments(so_far: Parsed, args: Seq<ArgumentView>) -> Parsed
    decreases args.len(),
{
    if args.len() == 0 {
        so_far
    } else {
        with_arguments(with_argument(so_far, args[0]), args.drop_first())
    }
}

/// What is known once the statements of the attacks have been read.
pub open spec fn with_attacks(so_far: Parsed, attacks: Seq<AttackView>) -> Parsed
    decreases attacks.len(),
{
    if attacks.len() == 0 {
        so_far
    } else {
        with_attacks(with_attack(so_far, attacks[0]), attacks.drop_first())
    }
}

/// Whether every name of the arguments and attacks can stand as a name in
/// the explicit format.
pub open spec fn all_nameable(args: Seq<ArgumentView>, attacks: Seq<AttackView>) -> bool {
    &&& forall|i: int| 0 <= i < args.len() ==> nameable((#[trigger] args[i]).id)
    &&& forall|j: int|
        0 <= j < attacks.len() ==> nameable((#[trigger] attacks[j]).from) && nameable(attacks[j].to)
}

/// A text that is made of the statements of arguments and attacks is read,
/// statement by statement, as just these.
pub proof fn lemma_read_statements(
    s: Seq<char>,
    lexemes: Seq<Lexeme<Token>>,
    k: int,
    at: int,
    args: Seq<ArgumentView>,
    attacks: Seq<AttackView>,
    so_far: Parsed,
)
    requires
        0 <= k <= lexemes.len(),
        0 <= at <= s.len() <= usize::MAX,
        lexemes.skip(k) == lexemes_from::<Token>(s, at),
        s.skip(at) == arguments_text(args) + attacks_text(attacks),
        all_nameable(args, attacks),
    ensures
        statements_from(s, lexemes, k, so_far) == Ok::<_, Failure>(
            with_attacks(with_arguments(so_far, args), attacks),
        ),
    decreases args.len() + attacks.len(),
{
    let whole = arguments_text(args) + attacks_text(attacks);
    if args.len() > 0 {
        let a = args[0];
        let e = argument_statements(a);
        let others = arguments_text(args.drop_first()) + attacks_text(attacks);
        lemma_arguments_text_front(args);
        lemma_statement_shape(a, AttackView { from: seq![], to: seq![], optional: false });
        assert(whole =~= e + others);
        assert(s.skip(at) == s.subrange(at, s.len() as int));
        assert(s.len() - at == e.len() + others.len());
        lemma_split(s, at, e, others);
        lemma_text_begins(args.drop_first(), attacks);
        let next = at + argument_len(a);
        assert(statement_boundary(s, next)) by {
            if others.len() > 0 {
                assert(s.subrange(next, next + others.len())[0] == s[next]);
            }
        }
        lemma_read_argument(s, lexemes, k, at, a, so_far);
        assert(s.skip(next) =~= others);
        assert forall|i: int| 0 <= i < args.drop_first().len() implies nameable(
            (#[trigger] args.drop_first()[i]).id,
        ) by {
            assert(args.drop_first()[i] == args[i + 1]);
        }
        lemma_read_statements(
            s,
            lexemes,
            k + argument_token_count(a),
            next,
            args.drop_first(),
            attacks,
            with_argument(so_far, a),
        );
    } else if attacks.len() > 0 {
        let a = attacks[0];
        let e = attack_statements(a);
        let others = arguments_text(args) + attacks_text(attacks.drop_first());
        lemma_attacks_text_front(attacks);
        lemma_statement_shape(ArgumentView { id: seq![], optional: false }, a);
        assert(arguments_text(args).len() == 0);
        assert(whole =~= e + others);
        assert(s.skip(at) == s.subrange(at, s.len() as int));
        assert(s.len() - at == e.len() + others.len());
        lemma_split(s, at, e, others);
        lemma_text_begins(args, attacks.drop_first());
        let next = at + attack_len(a);
        assert(statement_boundary(s, next)) by {
            if others.len() > 0 {
                assert(s.subrange(next, next + others.len())[0] == s[next]);
            }
        }
        lemma_read_attack(s, lexemes, k, at, a, so_far);
        assert(s.skip(next) =~= others);
        assert forall|j: int| 0 <= j < attacks.drop_first().len() implies nameable(
            (#[trigger] attacks.drop_first()[j]).from,
        ) && nameable(attacks.drop_first()[j].to) by {
            assert(attacks.drop_first()[j] == attacks[j + 1]);
        }
        lemma_read_statements(
            s,
            lexemes,
            k + attack_token_count(a),
            next,
            args,
            attacks.drop_first(),
            with_attack(so_far, a),
        );
    } else {
        assert(arguments_text(args).len() == 0);
        assert(attacks_text(attacks).len() == 0);
        assert(s.skip(at).len() == 0);
        assert(at == s.len());
        assert(lexemes.skip(k).len() == 0);
        assert(k == lexemes.len());
    }
}

/// The marks of the optional arguments, in the order of the arguments.
pub open spec fn argument_marks(args: Seq<ArgumentView>) -> Seq<Marker>
    decreases args.len(),
{
    if args.len() == 0 {
        Seq::empty()
    } else if args[0].optional {
        seq![Marker::Argument { id: args[0].id }] + argument_marks(args.drop_first())
    } else {
        argument_marks(args.drop_first())
    }
}

/// The marks of the optional attacks, in the order of the attacks.
pub open spec fn attack_marks(attacks: Seq<AttackView>) -> Seq<Marker>
    decreases attacks.len(),
{
    if attacks.len() == 0 {
        Seq::empty()
    } else if attacks[0].optional {
        seq![Marker::Attack { from: attacks[0].from, to: attacks[0].to }] + attack_marks(
            attacks.drop_first(),
        )
    } else {
        attack_marks(attacks.drop_first())
    }
}

/// Reading the statements of arguments declares them, without marks, and
/// notes the marks of the optional ones.
pub proof fn lemma_with_arguments(so_far: Parsed, args: Seq<ArgumentView>)
    ensures
        with_arguments(so_far, args) == (Parsed {
            args: so_far.args + unmarked_arguments(args),
            attacks: so_far.attacks,
            markers: so_far.markers + argument_marks(args),
        }),
    decreases args.len(),
{
    if args.len() == 0 {
        assert(so_far.args + unmarked_arguments(args) =~= so_far.args);
        assert(so_far.markers + argument_marks(args) =~= so_far.markers);
    } else {
        let next = with_argument(so_far, args[0]);
        lemma_with_arguments(next, args.drop_first());
        assert(next.args + unmarked_arguments(args.drop_first()) =~= so_far.args
            + unmarked_arguments(args));
        assert(next.markers + argument_marks(args.drop_first()) =~= so_far.markers
            + argument_marks(args));
    }
}

/// Reading the statements of attacks declares them, without marks, and
/// notes the marks of the optional ones.
pub proof fn lemma_with_attacks(so_far: Parsed, attacks: Seq<AttackView>)
    ensures
        with_attacks(so_far, attacks) == (Parsed {
            args: so_far.args,
            attacks: so_far.attacks + unmarked_attacks(attacks),
            markers: so_far.markers + attack_marks(attacks),
        }),
    decreases attacks.len(),
{
    if attacks.len() == 0 {
        assert(so_far.attacks + unmarked_attacks(attacks) =~= so_far.attacks);
        assert(so_far.markers + attack_marks(attacks) =~= so_far.markers);
    } else {
        let next = with_attack(so_far, attacks[0]);
        lemma_with_attacks(next, attacks.drop_first());
        assert(next.attacks + unmarked_attacks(attacks.drop_first()) =~= so_far.attacks
            + unmarked_attacks(attacks));
        assert(next.markers + attack_marks(attacks.drop_first()) =~= so_far.markers + attack_marks(
            attacks,
        ));
    }
}

/// The arguments with the marks of the first `n` of them, and no others.
pub open spec fn arguments_marked_up_to(args: Seq<ArgumentView>, n: int) -> Seq<ArgumentView> {
    Seq::new(
        args.len(),
        |i: int|
            if i < n {
                args[i]
            } else {
                ArgumentView { id: args[i].id, optional: false }
            },
    )
}

/// The attacks with the marks of the first `n` of them, and no others.
pub open spec fn attacks_marked_up_to(attacks: Seq<AttackView>, n: int) -> Seq<AttackView> {
    Seq::new(
        attacks.len(),
        |i: int|
            if i < n {
                attacks[i]
            } else {
                AttackView { from: attacks[i].from, to: attacks[i].to, optional: false }
            },
    )
}

/// Applying the marks of the arguments from the place `n` on gives these
/// arguments their marks.
pub proof fn lemma_apply_argument_marks(
    args: Seq<ArgumentView>,
    n: int,
    attacks: Seq<AttackView>,
    rest: Seq<Marker>,
)
    requires
        distinct_arguments(args),
        0 <= n <= args.len(),
    ensures
        apply_markers(
            arguments_marked_up_to(args, n),
            attacks,
            argument_marks(args.skip(n)) + rest,
        ) == apply_markers(args, attacks, rest),
    decreases args.len() - n,
{
    let now = arguments_marked_up_to(args, n);
    if n == args.len() {
        assert(args.skip(n).len() == 0);
        assert(argument_marks(args.skip(n)) + rest =~= rest);
        assert(now =~= args);
    } else {
        let a = args[n];
        assert(args.skip(n)[0] == a);
        assert(args.skip(n).drop_first() == args.skip(n + 1));
        lemma_apply_argument_marks(args, n + 1, attacks, rest);
        if a.optional {
            let markers = argument_marks(args.skip(n)) + rest;
            let later = argument_marks(args.skip(n + 1)) + rest;
            assert(markers =~= seq![Marker::Argument { id: a.id }] + later);
            assert(markers[0] == Marker::Argument { id: a.id });
            assert(markers.drop_first() =~= later);
            assert(first_argument(now, a.id, n)) by {
                assert forall|j: int| 0 <= j < n implies (#[trigger] now[j]).id != a.id by {
                    assert(args[j].id != args[n].id);
                }
            }
            let chosen = choose|i: int| first_argument(now, a.id, i);
            assert(chosen == n) by {
                if chosen < n {
                    assert(args[chosen].id != args[n].id);
                } else if chosen > n {
                    assert(now[n].id == a.id);
                }
            }
            assert(now.update(n, ArgumentView { id: a.id, optional: true })
                =~= arguments_marked_up_to(args, n + 1));
        } else {
            assert(now =~= arguments_marked_up_to(args, n + 1));
        }
    }
}

/// Applying the marks of the attacks from the place `n` on gives these
/// attacks their marks.
pub proof fn lemma_apply_attack_marks(args: Seq<ArgumentView>, attacks: Seq<AttackView>, n: int)
    requires
        distinct_attacks(attacks),
        0 <= n <= attacks.len(),
    ensures
        apply_markers(args, attacks_marked_up_to(attacks, n), attack_marks(attacks.skip(n)))
            == Ok::<_, Failure>((args, attacks)),
    decreases attacks.len() - n,
{
    let now = attacks_marked_up_to(attacks, n);
    if n == attacks.len() {
        assert(attacks.skip(n).len() == 0);
        assert(now =~= attacks);
    } else {
        let a = attacks[n];
        assert(attacks.skip(n)[0] == a);
        assert(attacks.skip(n).drop_first() == attacks.skip(n + 1));
        lemma_apply_attack_marks(args, attacks, n + 1);
        if a.optional {
            let markers = attack_marks(attacks.skip(n));
            let later = attack_marks(attacks.skip(n + 1));
            assert(markers =~= seq![Marker::Attack { from: a.from, to: a.to }] + later);
            assert(markers[0] == Marker::Attack { from: a.from, to: a.to });
            assert(markers.drop_first() =~= later);
            assert(first_attack(now, a.from, a.to, n)) by {
                assert forall|j: int| 0 <= j < n implies !((#[trigger] now[j]).from == a.from
                    && now[j].to == a.to) by {
                    assert(!(attacks[j].from == attacks[n].from && attacks[j].to == attacks[n].to));
                }
            }
            let chosen = choose|i: int| first_attack(now, a.from, a.to, i);
            assert(chosen == n) by {
                if chosen < n {
                    assert(!(attacks[chosen].from == attacks[n].from && attacks[chosen].to
                        == attacks[n].to));
                } else if chosen > n {
                    assert(now[n].from == a.from && now[n].to == a.to);
                }
            }
            assert(now.update(n, AttackView { from: a.from, to: a.to, optional: true })
                =~= attacks_marked_up_to(attacks, n + 1));
        } else {
            assert(now =~= attacks_marked_up_to(attacks, n + 1));
        }
    }
}

/// What is written in the explicit format is read back as it was written:
/// the same arguments and attacks in the same order, each optional exactly
/// if it was.
///
/// This holds of arguments and attacks whose names can stand in the format,
/// none of them twice, and of texts that a machine can hold.
pub proof fn lemma_round_trip(args: Seq<ArgumentView>, attacks: Seq<AttackView>)
    requires
        all_nameable(args, attacks),
        distinct_arguments(args),
        distinct_attacks(attacks),
        render(args, attacks).len() <= usize::MAX,
    ensures
        parse(render(args, attacks)) == Ok::<_, Failure>((args, attacks)),
{
    let s = render(args, attacks);
    let tokens = lexemes::<Token>(s);
    let nothing = Parsed { args: Seq::empty(), attacks: Seq::empty(), markers: Seq::empty() };
    assert(tokens.skip(0) == tokens);
    assert(s.skip(0) == s);
    lemma_read_statements(s, tokens, 0, 0, args, attacks, nothing);
    let declared = with_arguments(nothing, args);
    lemma_with_arguments(nothing, args);
    lemma_with_attacks(declared, attacks);
    let parsed = with_attacks(declared, attacks);
    assert(parsed.args =~= unmarked_arguments(args));
    assert(parsed.attacks =~= unmarked_attacks(attacks));
    assert(parsed.markers =~= argument_marks(args) + attack_marks(attacks));
    assert(unmarked_arguments(args) =~= arguments_marked_up_to(args, 0));
    assert(unmarked_attacks(attacks) =~= attacks_marked_up_to(attacks, 0));
    assert(args.skip(0) == args);
    assert(attacks.skip(0) == attacks);
    lemma_apply_argument_marks(args, 0, unmarked_attacks(attacks), attack_marks(attacks));
    lemma_apply_attack_marks(args, attacks, 0);
}

} // verus!
