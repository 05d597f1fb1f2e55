//! What the generator writes in the terse update format is read back as it
//! was meant.
use vstd::prelude::*;

use crate::argumentation_framework::parser::apxm;
use crate::argumentation_framework::parser::apxm::AddDel;
use crate::argumentation_framework::parser::round_trip::{
    lemma_holds_at, lemma_lex_piece, lemma_lex_symbol, lemma_lex_word, lemma_run_to,
};
use crate::argumentation_framework::parser::tgfm::{
    more_to_read, parse, patch_at, patches_from, sign_at, Token,
};
use crate::argumentation_framework::parser::{
    is_name_char, lexemes, lexemes_from, text, Dialect, Lexeme, PieceKind,
};
use crate::argumentation_framework::PatchView;
use crate::framework::Failure;
use crate::generator::explicit_laws::{
    attack_patches, chain_patches, lemma_chain_front, lemma_fixed_texts, lemma_name_of,
    lemma_skip_split, named_argument, named_attack, patches_of,
};
use crate::argumentation_framework::parser::round_trip::{lemma_split, statement_boundary};
use crate::argumentation_framework::parser::tgf;
use crate::argumentation_framework::parser::{kind_of, lemma_run_end_bounds, run_end};
use crate::argumentation_framework::symbols::{ArgumentView, AttackView};
use crate::generator::explicit_laws::{named_arguments, named_attacks};
use crate::generator::framework::{
    argument_line, argument_lines, attack_line, attack_lines, framework_text,
};
use crate::generator::types::{name_of, Argument, ArgumentWithState, Attack, AttackWithState};
use crate::generator::update::{chain_text, tgf_attack_text, UpdateLine};
use crate::generator::Format;

verus! {

/// The token `token` over the characters from `start` up to `end`.
pub open spec fn lexeme(token: Token, start: int, end: int) -> Lexeme<Token> {
    Lexeme { token, start: start as usize, end: end as usize }
}

/// Whether a name can end at the place `at`: the text ends there, or a
/// colon or a space stands there.
pub open spec fn name_ends(s: Seq<char>, at: int) -> bool {
    at == s.len() || (0 <= at < s.len() && (s[at] == ':' || s[at] == ' '))
}

/// A name is read as one token.
pub proof fn lemma_lex_name(s: Seq<char>, at: int, id: usize)
    requires
        0 <= at,
        at + name_of(id).len() <= s.len() <= usize::MAX,
        s.subrange(at, at + name_of(id).len()) == name_of(id),
        name_ends(s, at + name_of(id).len()),
    ensures
        lexemes_from::<Token>(s, at) == seq![lexeme(Token::Text, at, at + name_of(id).len())]
            + lexemes_from::<Token>(s, at + name_of(id).len()),
{
    lemma_name_of(id);
    lemma_lex_word::<Token>(s, at, name_of(id));
}

/// A single space between two names is read as one token.
pub proof fn lemma_lex_space(s: Seq<char>, at: int)
    requires
        0 <= at,
        at + 1 < s.len() <= usize::MAX,
        s[at] == ' ',
        s[at + 1] != ' ',
    ensures
        lexemes_from::<Token>(s, at) == seq![lexeme(Token::Whitespace, at, at + 1)]
            + lexemes_from::<Token>(s, at + 1),
{
    lemma_run_to(s, PieceKind::Spaces, at + 1, at + 1);
    lemma_lex_piece::<Token>(s, at, at + 1);
}

/// The tokens of two names with a space between them, where the names
/// have `n` and `m` characters and the text begins at the place `at`.
pub open spec fn attack_tokens(at: int, n: int, m: int) -> Seq<Lexeme<Token>> {
    seq![
        lexeme(Token::Text, at, at + n),
        lexeme(Token::Whitespace, at + n, at + n + 1),
        lexeme(Token::Text, at + n + 1, at + n + 1 + m),
    ]
}

/// Two names with a space between them are read as three tokens.
pub proof fn lemma_lex_attack(s: Seq<char>, at: int, attack: Attack)
    requires
        0 <= at,
        at + tgf_attack_text(attack).len() <= s.len() <= usize::MAX,
        s.subrange(at, at + tgf_attack_text(attack).len()) == tgf_attack_text(attack),
        name_ends(s, at + tgf_attack_text(attack).len()),
    ensures
        lexemes_from::<Token>(s, at) == attack_tokens(
            at,
            name_of(attack.from).len() as int,
            name_of(attack.to).len() as int,
        ) + lexemes_from::<Token>(s, at + tgf_attack_text(attack).len()),
        s.subrange(at, at + name_of(attack.from).len()) == name_of(attack.from),
        s.subrange(
            at + name_of(attack.from).len() + 1,
            at + name_of(attack.from).len() + 1 + name_of(attack.to).len(),
        ) == name_of(attack.to),
        tgf_attack_text(attack).len() == name_of(attack.from).len() + name_of(attack.to).len() + 1,
{
    lemma_fixed_texts();
    lemma_name_of(attack.from);
    lemma_name_of(attack.to);
    let f = name_of(attack.from);
    let t = name_of(attack.to);
    let n = f.len() as int;
    let m = t.len() as int;
    assert(tgf_attack_text(attack) == (f + " "@) + t);
    lemma_split(s, at, f + " "@, t);
    lemma_split(s, at, f, " "@);
    assert(s.subrange(at + n, at + n + 1)[0] == s[at + n]);
    assert(s.subrange(at + n + 1, at + n + 1 + m)[0] == s[at + n + 1]);
    lemma_lex_name(s, at, attack.from);
    lemma_lex_space(s, at + n);
    lemma_lex_name(s, at + n + 1, attack.to);
    assert(lexemes_from::<Token>(s, at) =~= attack_tokens(at, n, m) + lexemes_from::<Token>(
        s,
        at + n + m + 1,
    ));
}

/// A colon is the next token where it stands.
pub proof fn lemma_next_colon(s: Seq<char>, lexemes: Seq<Lexeme<Token>>, next: int, at: int)
    requires
        0 <= next <= lexemes.len(),
        0 <= at < s.len() <= usize::MAX,
        lexemes.skip(next) == lexemes_from::<Token>(s, at),
        s[at] == ':',
    ensures
        next < lexemes.len(),
        lexemes[next] == lexeme(Token::Colon, at, at + 1),
        lexemes.skip(next + 1) == lexemes_from::<Token>(s, at + 1),
{
    lemma_lex_symbol::<Token>(s, at);
    let rest = lexemes_from::<Token>(s, at + 1);
    let one = seq![lexeme(Token::Colon, at, at + 1)];
    lemma_holds_at(lexemes, next, one, rest);
    assert(lexemes[next + 0] == one[0]);
}

/// Two names with a space between them, followed by a chain of attacks up
/// to the end of the line, are read as the patches of these attacks.
pub proof fn lemma_read_from_attack(
    s: Seq<char>,
    lexemes: Seq<Lexeme<Token>>,
    k: int,
    at: int,
    first: Attack,
    others: Seq<Attack>,
    sign: AddDel,
    so_far: Seq<PatchView>,
)
    requires
        0 < k <= lexemes.len(),
        0 <= at <= s.len() <= usize::MAX,
        lexemes[k - 1].end == at,
        lexemes.skip(k) == lexemes_from::<Token>(s, at),
        s.skip(at) == tgf_attack_text(first) + chain_text(others, Format::Tgf),
    ensures
        patches_from(s, lexemes, k, sign, so_far) == Ok::<_, Failure>(
            so_far.push(sign.att_patch(named_attack(first))) + chain_patches(others, sign),
        ),
    decreases others.len(),
{
    lemma_fixed_texts();
    let f = name_of(first.from);
    let t = name_of(first.to);
    let n = f.len() as int;
    let m = t.len() as int;
    let d = tgf_attack_text(first);
    let tail = chain_text(others, Format::Tgf);
    lemma_name_of(first.from);
    lemma_name_of(first.to);
    assert(d.len() == n + m + 1);
    lemma_skip_split(s, at, d, tail);
    let next_at = at + n + m + 1;
    let patches = so_far.push(sign.att_patch(named_attack(first)));
    if others.len() == 0 {
        assert(tail =~= Seq::<char>::empty());
        assert(next_at == s.len());
        lemma_lex_attack(s, at, first);
        lemma_holds_at(lexemes, k, attack_tokens(at, n, m), lexemes_from::<Token>(s, next_at));
        assert(lexemes.skip(k + 3).len() == 0);
        assert(k + 3 == lexemes.len());
        let tokens = attack_tokens(at, n, m);
        assert(lexemes[k + 0] == tokens[0]);
        assert(lexemes[k + 1] == tokens[1]);
        assert(lexemes[k + 2] == tokens[2]);
        assert(text(s, lexemes[k]) == f);
        assert(text(s, lexemes[k + 2]) == t);
        assert(more_to_read(s, lexemes, k));
        assert(patch_at(s, lexemes, k, sign) == Ok::<_, Failure>(
            (sign.att_patch(named_attack(first)), 3int),
        ));
        assert(chain_patches(others, sign) =~= Seq::<PatchView>::empty());
        assert(patches + chain_patches(others, sign) =~= patches);
    } else {
        lemma_chain_front(others, Format::Tgf);
        let piece = chain_text(seq![others[0]], Format::Tgf);
        let d2 = tgf_attack_text(others[0]);
        assert(seq![others[0]].drop_last().len() == 0);
        assert(seq![others[0]].last() == others[0]);
        assert(chain_text(seq![others[0]].drop_last(), Format::Tgf) =~= Seq::<char>::empty());
        assert(piece =~= ":"@ + d2);
        assert(piece.skip(1) =~= d2);
        let rest = chain_text(others.drop_first(), Format::Tgf);
        assert(tail =~= ":"@ + (d2 + rest));
        assert(s.skip(next_at)[0] == s[next_at]);
        lemma_lex_attack(s, at, first);
        lemma_holds_at(lexemes, k, attack_tokens(at, n, m), lexemes_from::<Token>(s, next_at));
        let tokens = attack_tokens(at, n, m);
        assert(lexemes[k + 0] == tokens[0]);
        assert(lexemes[k + 1] == tokens[1]);
        assert(lexemes[k + 2] == tokens[2]);
        assert(text(s, lexemes[k]) == f);
        assert(text(s, lexemes[k + 2]) == t);
        lemma_next_colon(s, lexemes, k + 3, next_at);
        lemma_skip_split(s, next_at, ":"@, d2 + rest);
        assert(more_to_read(s, lexemes, k));
        assert(patch_at(s, lexemes, k, sign) == Ok::<_, Failure>(
            (sign.att_patch(named_attack(first)), 4int),
        ));
        lemma_read_from_attack(
            s,
            lexemes,
            k + 4,
            next_at + 1,
            others[0],
            others.drop_first(),
            sign,
            patches,
        );
        assert(patches.push(sign.att_patch(named_attack(others[0]))) + chain_patches(
            others.drop_first(),
            sign,
        ) =~= patches + chain_patches(others, sign));
    }
}

/// A name, followed by a chain of attacks up to the end of the line, is
/// read as the patch of the argument and those of the attacks.
pub proof fn lemma_read_from_argument(
    s: Seq<char>,
    lexemes: Seq<Lexeme<Token>>,
    k: int,
    at: int,
    first: Argument,
    others: Seq<Attack>,
    sign: AddDel,
    so_far: Seq<PatchView>,
)
    requires
        0 < k <= lexemes.len(),
        0 <= at <= s.len() <= usize::MAX,
        lexemes[k - 1].end == at,
        lexemes.skip(k) == lexemes_from::<Token>(s, at),
        s.skip(at) == name_of(first.id) + chain_text(others, Format::Tgf),
    ensures
        patches_from(s, lexemes, k, sign, so_far) == Ok::<_, Failure>(
            so_far.push(sign.arg_patch(named_argument(first))) + chain_patches(others, sign),
        ),
{
    lemma_fixed_texts();
    let name = name_of(first.id);
    let n = name.len() as int;
    let tail = chain_text(others, Format::Tgf);
    lemma_name_of(first.id);
    lemma_skip_split(s, at, name, tail);
    let next_at = at + n;
    let patches = so_far.push(sign.arg_patch(named_argument(first)));
    let one = seq![lexeme(Token::Text, at, at + n)];
    if others.len() == 0 {
        assert(tail =~= Seq::<char>::empty());
        assert(next_at == s.len());
        lemma_lex_name(s, at, first.id);
        lemma_holds_at(lexemes, k, one, lexemes_from::<Token>(s, next_at));
        assert(lexemes.skip(k + 1).len() == 0);
        assert(k + 1 == lexemes.len());
        assert(lexemes[k + 0] == one[0]);
        assert(text(s, lexemes[k]) == name);
        assert(more_to_read(s, lexemes, k));
        assert(patch_at(s, lexemes, k, sign) == Ok::<_, Failure>(
            (sign.arg_patch(named_argument(first)), 1int),
        ));
        assert(chain_patches(others, sign) =~= Seq::<PatchView>::empty());
        assert(patches + chain_patches(others, sign) =~= patches);
    } else {
        lemma_chain_front(others, Format::Tgf);
        let piece = chain_text(seq![others[0]], Format::Tgf);
        let d2 = tgf_attack_text(others[0]);
        assert(seq![others[0]].drop_last().len() == 0);
        assert(seq![others[0]].last() == others[0]);
        assert(chain_text(seq![others[0]].drop_last(), Format::Tgf) =~= Seq::<char>::empty());
        assert(piece =~= ":"@ + d2);
        assert(piece.skip(1) =~= d2);
        let rest = chain_text(others.drop_first(), Format::Tgf);
        assert(tail =~= ":"@ + (d2 + rest));
        assert(s.skip(next_at)[0] == s[next_at]);
        lemma_lex_name(s, at, first.id);
        lemma_holds_at(lexemes, k, one, lexemes_from::<Token>(s, next_at));
        assert(lexemes[k + 0] == one[0]);
        assert(text(s, lexemes[k]) == name);
        lemma_next_colon(s, lexemes, k + 1, next_at);
        lemma_skip_split(s, next_at, ":"@, d2 + rest);
        assert(more_to_read(s, lexemes, k));
        assert(patch_at(s, lexemes, k, sign) == Ok::<_, Failure>(
            (sign.arg_patch(named_argument(first)), 2int),
        ));
        lemma_read_from_attack(
            s,
            lexemes,
            k + 2,
            next_at + 1,
            others[0],
            others.drop_first(),
            sign,
            patches,
        );
        assert(patches.push(sign.att_patch(named_attack(others[0]))) + chain_patches(
            others.drop_first(),
            sign,
        ) =~= patches + chain_patches(others, sign));
    }
}


/// The sign is the first token of a line that begins with it.
pub proof fn lemma_first_sign(s: Seq<char>, sign: AddDel)
    requires
        0 < s.len() <= usize::MAX,
        s[0] == if sign == AddDel::Add {
            '+'
        } else {
            '-'
        },
    ensures
        lexemes::<Token>(s).len() > 0,
        lexemes::<Token>(s)[0].end == 1,
        sign_at(s, lexemes::<Token>(s), 0) == Ok::<_, Failure>(sign),
        lexemes::<Token>(s).skip(1) == lexemes_from::<Token>(s, 1),
{
    let tokens = lexemes::<Token>(s);
    lemma_lex_symbol::<Token>(s, 0);
    let token = if sign == AddDel::Add {
        Token::Plus
    } else {
        Token::Minus
    };
    let one = seq![lexeme(token, 0, 1)];
    assert(tokens.skip(0) == tokens);
    lemma_holds_at(tokens, 0, one, lexemes_from::<Token>(s, 1));
    assert(tokens[0int] == one[0]);
}

/// A line in the terse format is no line in the explicit format: there a
/// name cannot follow the sign.
pub proof fn lemma_no_explicit_line(s: Seq<char>, sign: AddDel, id: usize)
    requires
        s.len() <= usize::MAX,
        1 + name_of(id).len() <= s.len(),
        s[0] == if sign == AddDel::Add {
            '+'
        } else {
            '-'
        },
        s.subrange(1, 1 + name_of(id).len() as int) == name_of(id),
        name_ends(s, 1 + name_of(id).len() as int),
    ensures
        apxm::parse(s) is Err,
{
    lemma_name_of(id);
    let tokens = lexemes::<apxm::Token>(s);
    let name = name_of(id);
    lemma_lex_symbol::<apxm::Token>(s, 0);
    lemma_lex_word::<apxm::Token>(s, 1, name);
    let sign_token = if sign == AddDel::Add {
        apxm::Token::Plus
    } else {
        apxm::Token::Minus
    };
    let first = seq![Lexeme { token: sign_token, start: 0usize, end: 1usize }];
    assert(tokens.skip(0) == tokens);
    lemma_holds_at(tokens, 0, first, lexemes_from::<apxm::Token>(s, 1));
    assert(tokens[0int] == first[0]);
    let second = seq![
        Lexeme { token: apxm::Token::Text, start: 1usize, end: (1 + name.len()) as usize },
    ];
    lemma_holds_at(tokens, 1, second, lexemes_from::<apxm::Token>(s, 1 + name.len() as int));
    assert(tokens[1int] == second[0]);
    assert(apxm::sign_at(s, tokens, 0) == Ok::<_, Failure>(sign));
    assert(tokens[1].token == apxm::Token::Text);
}

/// An update line that the generator writes in the terse format is read
/// back as the patches that it stands for: the patch of the element that
/// it names and, where it enables an argument, the patches that enable the
/// attacks that come along.
///
/// This holds of lines that a machine can hold.
pub proof fn lemma_terse_line_is_read_back(line: UpdateLine)
    requires
        line.text(Format::Tgf).len() <= usize::MAX,
    ensures
        parse(line.text(Format::Tgf)) == Ok::<_, Failure>(patches_of(line)),
        crate::argumentation_framework::parser::patches_of(line.text(Format::Tgf)) == Ok::<
            _,
            Failure,
        >(patches_of(line)),
{
    lemma_fixed_texts();
    let s = line.text(Format::Tgf);
    let tokens = lexemes::<Token>(s);
    let none = Seq::<Attack>::empty();
    let nothing = Seq::<PatchView>::empty();
    assert(chain_text(none, Format::Tgf) =~= Seq::<char>::empty());
    match line {
        UpdateLine::EnableArgument(argument, attacks) => {
            let name = name_of(argument.id);
            let chain = chain_text(attacks@, Format::Tgf);
            lemma_name_of(argument.id);
            assert(s =~= "+"@ + (name + chain));
            assert(s.skip(0) == s);
            lemma_skip_split(s, 0, "+"@, name + chain);
            assert(s.subrange(0, 1)[0] == s[0]);
            lemma_skip_split(s, 1, name, chain);
            lemma_first_sign(s, AddDel::Add);
            lemma_read_from_argument(s, tokens, 1, 1, argument, attacks@, AddDel::Add, nothing);
            assert(chain_patches(attacks@, AddDel::Add) =~= attack_patches(attacks@));
            assert(nothing.push(AddDel::Add.arg_patch(named_argument(argument)))
                + chain_patches(attacks@, AddDel::Add) =~= patches_of(line));
            assert(name_ends(s, 1 + name.len() as int)) by {
                if attacks@.len() > 0 {
                    lemma_chain_front(attacks@, Format::Tgf);
                    assert(chain[0] == ':');
                    assert(s.skip(1 + name.len() as int)[0] == s[1 + name.len() as int]);
                } else {
                    assert(chain =~= Seq::<char>::empty());
                }
            }
            lemma_no_explicit_line(s, AddDel::Add, argument.id);
        },
        UpdateLine::DisableArgument(argument) => {
            let name = name_of(argument.id);
            lemma_name_of(argument.id);
            assert(s =~= "-"@ + (name + chain_text(none, Format::Tgf)));
            assert(s.skip(0) == s);
            lemma_skip_split(s, 0, "-"@, name + chain_text(none, Format::Tgf));
            assert(s.subrange(0, 1)[0] == s[0]);
            lemma_skip_split(s, 1, name, chain_text(none, Format::Tgf));
            lemma_first_sign(s, AddDel::Del);
            lemma_read_from_argument(s, tokens, 1, 1, argument, none, AddDel::Del, nothing);
            assert(chain_patches(none, AddDel::Del) =~= Seq::<PatchView>::empty());
            assert(nothing.push(AddDel::Del.arg_patch(named_argument(argument)))
                + chain_patches(none, AddDel::Del) =~= patches_of(line));
            lemma_no_explicit_line(s, AddDel::Del, argument.id);
        },
        UpdateLine::EnableAttack(attack) => {
            lemma_attack_line(s, attack, AddDel::Add);
        },
        UpdateLine::DisableAttack(attack) => {
            lemma_attack_line(s, attack, AddDel::Del);
        },
    }
}

/// A line that begins with a sign and names an attack is read as the patch
/// of the attack, under the sign, and is no line in the explicit format.
pub proof fn lemma_attack_line(s: Seq<char>, attack: Attack, sign: AddDel)
    requires
        s.len() <= usize::MAX,
        s == (if sign == AddDel::Add {
            "+"@
        } else {
            "-"@
        }) + tgf_attack_text(attack),
    ensures
        parse(s) == Ok::<_, Failure>(seq![sign.att_patch(named_attack(attack))]),
        apxm::parse(s) is Err,
{
    lemma_fixed_texts();
    let tokens = lexemes::<Token>(s);
    let none = Seq::<Attack>::empty();
    let nothing = Seq::<PatchView>::empty();
    let mark = if sign == AddDel::Add {
        "+"@
    } else {
        "-"@
    };
    let d = tgf_attack_text(attack);
    let f = name_of(attack.from);
    let t = name_of(attack.to);
    lemma_name_of(attack.from);
    lemma_name_of(attack.to);
    assert(chain_text(none, Format::Tgf) =~= Seq::<char>::empty());
    assert(s =~= mark + (d + chain_text(none, Format::Tgf)));
    assert(s.skip(0) == s);
    lemma_skip_split(s, 0, mark, d + chain_text(none, Format::Tgf));
    assert(s.subrange(0, 1)[0] == s[0]);
    lemma_skip_split(s, 1, d, chain_text(none, Format::Tgf));
    lemma_first_sign(s, sign);
    lemma_read_from_attack(s, tokens, 1, 1, attack, none, sign, nothing);
    assert(chain_patches(none, sign) =~= Seq::<PatchView>::empty());
    assert(nothing.push(sign.att_patch(named_attack(attack))) + chain_patches(none, sign)
        =~= seq![sign.att_patch(named_attack(attack))]);
    assert(d == (f + " "@) + t);
    assert(d.len() == f.len() + t.len() + 1);
    lemma_split(s, 1, f + " "@, t);
    lemma_split(s, 1, f, " "@);
    assert(s.subrange(1 + f.len() as int, 2 + f.len() as int)[0] == s[1 + f.len() as int]);
    lemma_no_explicit_line(s, sign, attack.from);
}


/// The token `token` of the terse framework format over the characters
/// from `start` up to `end`.
pub open spec fn file_lexeme(token: tgf::Token, start: int, end: int) -> Lexeme<tgf::Token> {
    Lexeme { token, start: start as usize, end: end as usize }
}

/// The tokens of a name with `n` characters that begins at the place `at`,
/// and of its mark if it has one.
pub open spec fn name_tokens(at: int, n: int, marked: bool) -> Seq<Lexeme<tgf::Token>> {
    if marked {
        seq![
            file_lexeme(tgf::Token::Text, at, at + n),
            file_lexeme(tgf::Token::Optional, at + n, at + n + 1),
        ]
    } else {
        seq![file_lexeme(tgf::Token::Text, at, at + n)]
    }
}

/// The end of a line: the mark, if there is one, and the line break.
pub open spec fn line_end(marked: bool) -> Seq<char> {
    if marked {
        "?\n"@
    } else {
        "\n"@
    }
}

/// The characters of the fixed texts of the terse framework format.
pub proof fn lemma_file_texts()
    ensures
        "?\n"@ == seq!['?', '\n'],
        "\n"@ == seq!['\n'],
        "#\n"@ == seq!['#', '\n'],
        " "@ == seq![' '],
{
    reveal_strlit("?\n");
    reveal_strlit("\n");
    reveal_strlit("#\n");
    reveal_strlit(" ");
    assert("?\n"@ =~= seq!['?', '\n']);
    assert("\n"@ =~= seq!['\n']);
    assert("#\n"@ =~= seq!['#', '\n']);
    assert(" "@ =~= seq![' ']);
}

/// A name at the end of its line is read as its token, and that of its
/// mark if it has one; the line break is passed over.
pub proof fn lemma_lex_name_and_end(s: Seq<char>, at: int, id: usize, marked: bool)
    requires
        0 <= at,
        at + name_of(id).len() + line_end(marked).len() <= s.len() <= usize::MAX,
        s.subrange(at, at + name_of(id).len() + line_end(marked).len()) == name_of(id) + line_end(
            marked,
        ),
        statement_boundary(s, at + name_of(id).len() + line_end(marked).len()),
    ensures
        lexemes_from::<tgf::Token>(s, at) == name_tokens(at, name_of(id).len() as int, marked)
            + lexemes_from::<tgf::Token>(s, at + name_of(id).len() + line_end(marked).len()),
        s.subrange(at, at + name_of(id).len()) == name_of(id),
{
    lemma_file_texts();
    lemma_name_of(id);
    let name = name_of(id);
    let n = name.len() as int;
    let end = line_end(marked);
    lemma_split(s, at, name, end);
    assert(s.subrange(at + n, at + n + end.len())[0] == s[at + n]);
    lemma_lex_word::<tgf::Token>(s, at, name);
    if marked {
        assert(s.subrange(at + n, at + n + end.len())[1] == s[at + n + 1]);
        lemma_lex_symbol::<tgf::Token>(s, at + n);
        lemma_run_to(s, PieceKind::Breaks, at + n + 2, at + n + 2);
        lemma_lex_piece::<tgf::Token>(s, at + n + 1, at + n + 2);
        assert(s.subrange(at + n + 1, at + n + 2) =~= seq!['\n']);
    } else {
        lemma_run_to(s, PieceKind::Breaks, at + n + 1, at + n + 1);
        lemma_lex_piece::<tgf::Token>(s, at + n, at + n + 1);
        assert(s.subrange(at + n, at + n + 1) =~= seq!['\n']);
    }
    assert(lexemes_from::<tgf::Token>(s, at) =~= name_tokens(at, n, marked) + lexemes_from::<
        tgf::Token,
    >(s, at + n + end.len()));
}

/// Where a name or the separator begins, a token begins that is no mark.
pub proof fn lemma_no_mark_ahead(s: Seq<char>, lexemes: Seq<Lexeme<tgf::Token>>, k: int, at: int)
    requires
        0 <= k <= lexemes.len(),
        0 <= at <= s.len() <= usize::MAX,
        lexemes.skip(k) == lexemes_from::<tgf::Token>(s, at),
        at == s.len() || s[at] == 'a' || s[at] == '#',
    ensures
        k < lexemes.len() ==> lexemes[k].token != tgf::Token::Optional,
{
    if at < s.len() {
        let kind = kind_of(s[at]);
        lemma_run_end_bounds(s, kind, at + 1);
        let end = run_end(s, kind, at + 1);
        lemma_lex_piece::<tgf::Token>(s, at, end);
        let piece = s.subrange(at, end);
        assert(piece[0] == s[at]);
        let token = tgf::Token::classify(kind, piece);
        assert(token is Some);
        assert(token->Some_0 != tgf::Token::Optional);
        let rest = lexemes_from::<tgf::Token>(s, end);
        let one = seq![Lexeme { token: token->Some_0, start: at as usize, end: end as usize }];
        lemma_holds_at(lexemes, k, one, rest);
        assert(lexemes[k + 0] == one[0]);
    } else {
        assert(lexemes.skip(k).len() == 0);
    }
}

/// The lines of the arguments are the line of the first, then the lines
/// of the others.
pub proof fn lemma_argument_lines_front(args: Seq<ArgumentWithState>)
    requires
        args.len() > 0,
    ensures
        argument_lines(args, Format::Tgf, false) == argument_line(args[0], Format::Tgf, false)
            + argument_lines(args.drop_first(), Format::Tgf, false),
    decreases args.len(),
{
    if args.len() == 1 {
        assert(args.drop_last().len() == 0);
        assert(args.drop_first().len() == 0);
        assert(args.last() == args[0]);
        assert(argument_lines(args.drop_last(), Format::Tgf, false) =~= Seq::<char>::empty());
        assert(argument_lines(args.drop_first(), Format::Tgf, false) =~= Seq::<char>::empty());
        assert(argument_lines(args, Format::Tgf, false) =~= argument_line(
            args[0],
            Format::Tgf,
            false,
        ) + argument_lines(args.drop_first(), Format::Tgf, false));
    } else {
        lemma_argument_lines_front(args.drop_last());
        assert(args.drop_last()[0] == args[0]);
        assert(args.drop_last().drop_first() == args.drop_first().drop_last());
        assert(args.drop_first().last() == args.last());
        assert(argument_lines(args, Format::Tgf, false) =~= argument_line(
            args[0],
            Format::Tgf,
            false,
        ) + argument_lines(args.drop_first(), Format::Tgf, false));
    }
}

/// The lines of the attacks are the line of the first, then the lines of
/// the others.
pub proof fn lemma_attack_lines_front(atts: Seq<AttackWithState>)
    requires
        atts.len() > 0,
    ensures
        attack_lines(atts, Format::Tgf, false) == attack_line(atts[0], Format::Tgf, false)
            + attack_lines(atts.drop_first(), Format::Tgf, false),
    decreases atts.len(),
{
    if atts.len() == 1 {
        assert(atts.drop_last().len() == 0);
        assert(atts.drop_first().len() == 0);
        assert(atts.last() == atts[0]);
        assert(attack_lines(atts.drop_last(), Format::Tgf, false) =~= Seq::<char>::empty());
        assert(attack_lines(atts.drop_first(), Format::Tgf, false) =~= Seq::<char>::empty());
        assert(attack_lines(atts, Format::Tgf, false) =~= attack_line(atts[0], Format::Tgf, false)
            + attack_lines(atts.drop_first(), Format::Tgf, false));
    } else {
        lemma_attack_lines_front(atts.drop_last());
        assert(atts.drop_last()[0] == atts[0]);
        assert(atts.drop_last().drop_first() == atts.drop_first().drop_last());
        assert(atts.drop_first().last() == atts.last());
        assert(attack_lines(atts, Format::Tgf, false) =~= attack_line(atts[0], Format::Tgf, false)
            + attack_lines(atts.drop_first(), Format::Tgf, false));
    }
}

/// The lines of attacks, where there are any, begin with the letter `a`.
pub proof fn lemma_attack_lines_begin(atts: Seq<AttackWithState>)
    ensures
        attack_lines(atts, Format::Tgf, false).len() > 0 ==> attack_lines(
            atts,
            Format::Tgf,
            false,
        )[0] == 'a',
        atts.len() == 0 ==> attack_lines(atts, Format::Tgf, false).len() == 0,
{
    reveal_strlit("a");
    if atts.len() > 0 {
        lemma_attack_lines_front(atts);
        lemma_name_of(atts[0].0.from);
        let line = attack_line(atts[0], Format::Tgf, false);
        assert(tgf_attack_text(atts[0].0)[0] == 'a');
        assert(line[0] == 'a');
    }
}

/// The tokens of an attack line that begins at the place `at`, where the
/// names have `n` and `m` characters.
pub open spec fn attack_line_tokens(at: int, n: int, m: int, marked: bool) -> Seq<
    Lexeme<tgf::Token>,
> {
    seq![
        file_lexeme(tgf::Token::Text, at, at + n),
        file_lexeme(tgf::Token::Whitespace, at + n, at + n + 1),
    ] + name_tokens(at + n + 1, m, marked)
}

/// An attack line is read as its tokens.
pub proof fn lemma_lex_attack_line(s: Seq<char>, at: int, entry: AttackWithState)
    requires
        0 <= at,
        at + attack_line(entry, Format::Tgf, false).len() <= s.len() <= usize::MAX,
        s.subrange(at, at + attack_line(entry, Format::Tgf, false).len()) == attack_line(
            entry,
            Format::Tgf,
            false,
        ),
        statement_boundary(s, at + attack_line(entry, Format::Tgf, false).len()),
    ensures
        lexemes_from::<tgf::Token>(s, at) == attack_line_tokens(
            at,
            name_of(entry.0.from).len() as int,
            name_of(entry.0.to).len() as int,
            entry.0.optional,
        ) + lexemes_from::<tgf::Token>(s, at + attack_line(entry, Format::Tgf, false).len()),
        s.subrange(at, at + name_of(entry.0.from).len()) == name_of(entry.0.from),
        s.subrange(
            at + name_of(entry.0.from).len() + 1,
            at + name_of(entry.0.from).len() + 1 + name_of(entry.0.to).len(),
        ) == name_of(entry.0.to),
        attack_line(entry, Format::Tgf, false).len() == name_of(entry.0.from).len() + name_of(
            entry.0.to,
        ).len() + 1 + line_end(entry.0.optional).len(),
{
    lemma_file_texts();
    let a = entry.0;
    let f = name_of(a.from);
    let t = name_of(a.to);
    let n = f.len() as int;
    let m = t.len() as int;
    let end = line_end(a.optional);
    let line = attack_line(entry, Format::Tgf, false);
    lemma_name_of(a.from);
    lemma_name_of(a.to);
    assert(line =~= (f + " "@) + (t + end));
    lemma_split(s, at, f + " "@, t + end);
    lemma_split(s, at, f, " "@);
    assert(s.subrange(at + n, at + n + 1)[0] == s[at + n]);
    assert(s.subrange(at + n + 1, at + n + 1 + m + end.len())[0] == s[at + n + 1]);
    lemma_lex_word::<tgf::Token>(s, at, f);
    lemma_run_to(s, PieceKind::Spaces, at + n + 1, at + n + 1);
    lemma_lex_piece::<tgf::Token>(s, at + n, at + n + 1);
    assert(s.subrange(at + n, at + n + 1) =~= seq![' ']);
    lemma_lex_name_and_end(s, at + n + 1, a.to, a.optional);
    assert(lexemes_from::<tgf::Token>(s, at) =~= attack_line_tokens(at, n, m, a.optional)
        + lexemes_from::<tgf::Token>(s, at + line.len()));
}

/// An attack line, with a name or nothing behind it, is read as the
/// attack.
pub proof fn lemma_read_attack_line(
    s: Seq<char>,
    lexemes: Seq<Lexeme<tgf::Token>>,
    k: int,
    at: int,
    entry: AttackWithState,
    so_far: Seq<AttackView>,
)
    requires
        0 <= k <= lexemes.len(),
        0 <= at,
        at + attack_line(entry, Format::Tgf, false).len() <= s.len() <= usize::MAX,
        lexemes.skip(k) == lexemes_from::<tgf::Token>(s, at),
        s.subrange(at, at + attack_line(entry, Format::Tgf, false).len()) == attack_line(
            entry,
            Format::Tgf,
            false,
        ),
        at + attack_line(entry, Format::Tgf, false).len() == s.len() || s[at + attack_line(
            entry,
            Format::Tgf,
            false,
        ).len()] == 'a',
    ensures
        k + 3 <= lexemes.len(),
        lexemes.skip(k + 2 + tgf::name_len(lexemes, k + 2)) == lexemes_from::<tgf::Token>(
            s,
            at + attack_line(entry, Format::Tgf, false).len(),
        ),
        tgf::attacks_from(s, lexemes, k, so_far) == tgf::attacks_from(
            s,
            lexemes,
            k + 2 + tgf::name_len(lexemes, k + 2),
            so_far.push(
                AttackView {
                    from: name_of(entry.0.from),
                    to: name_of(entry.0.to),
                    optional: entry.0.optional,
                },
            ),
        ),
{
    let a = entry.0;
    let n = name_of(a.from).len() as int;
    let m = name_of(a.to).len() as int;
    let next_at = at + attack_line(entry, Format::Tgf, false).len();
    lemma_lex_attack_line(s, at, entry);
    let tokens = attack_line_tokens(at, n, m, a.optional);
    lemma_holds_at(lexemes, k, tokens, lexemes_from::<tgf::Token>(s, next_at));
    assert(lexemes[k + 0] == tokens[0]);
    assert(lexemes[k + 1] == tokens[1]);
    assert(lexemes[k + 2] == tokens[2]);
    crate::argumentation_framework::parser::round_trip::lemma_stands(
        lexemes,
        k + 1,
        tgf::after_from(),
    );
    assert(text(s, lexemes[k]) == name_of(a.from));
    assert(text(s, lexemes[k + 2]) == name_of(a.to));
    if a.optional {
        assert(lexemes[k + 3] == tokens[3]);
        assert(tgf::marked(lexemes, k + 2));
    } else {
        lemma_no_mark_ahead(s, lexemes, k + 3, next_at);
        assert(!tgf::marked(lexemes, k + 2));
    }
}

/// The attack lines, up to the end of the text, are read as the attacks.
pub proof fn lemma_read_attack_lines(
    s: Seq<char>,
    lexemes: Seq<Lexeme<tgf::Token>>,
    k: int,
    at: int,
    atts: Seq<AttackWithState>,
    so_far: Seq<AttackView>,
)
    requires
        0 <= k <= lexemes.len(),
        0 <= at <= s.len() <= usize::MAX,
        lexemes.skip(k) == lexemes_from::<tgf::Token>(s, at),
        s.skip(at) == attack_lines(atts, Format::Tgf, false),
    ensures
        tgf::attacks_from(s, lexemes, k, so_far) == Ok::<_, Failure>(so_far + named_attacks(atts)),
    decreases atts.len(),
{
    if atts.len() == 0 {
        lemma_attack_lines_begin(atts);
        assert(s.skip(at).len() == 0);
        assert(lexemes.skip(k).len() == 0);
        assert(so_far + named_attacks(atts) =~= so_far);
    } else {
        let line = attack_line(atts[0], Format::Tgf, false);
        let others = attack_lines(atts.drop_first(), Format::Tgf, false);
        lemma_attack_lines_front(atts);
        lemma_skip_split(s, at, line, others);
        let next_at = at + line.len();
        lemma_attack_lines_begin(atts.drop_first());
        if others.len() > 0 {
            assert(s.skip(next_at)[0] == s[next_at]);
        }
        lemma_read_attack_line(s, lexemes, k, at, atts[0], so_far);
        let grown = so_far.push(
            AttackView {
                from: name_of(atts[0].0.from),
                to: name_of(atts[0].0.to),
                optional: atts[0].0.optional,
            },
        );
        lemma_read_attack_lines(
            s,
            lexemes,
            k + 2 + tgf::name_len(lexemes, k + 2),
            next_at,
            atts.drop_first(),
            grown,
        );
        assert(grown + named_attacks(atts.drop_first()) =~= so_far + named_attacks(atts));
    }
}

/// The argument lines, the separator and the attack lines are read as the
/// arguments and the attacks.
pub proof fn lemma_read_lines(
    s: Seq<char>,
    lexemes: Seq<Lexeme<tgf::Token>>,
    k: int,
    at: int,
    args: Seq<ArgumentWithState>,
    atts: Seq<AttackWithState>,
    so_far: Seq<ArgumentView>,
)
    requires
        0 <= k <= lexemes.len(),
        0 <= at <= s.len() <= usize::MAX,
        lexemes.skip(k) == lexemes_from::<tgf::Token>(s, at),
        s.skip(at) == argument_lines(args, Format::Tgf, false) + "#\n"@ + attack_lines(
            atts,
            Format::Tgf,
            false,
        ),
    ensures
        tgf::arguments_from(s, lexemes, k, so_far) matches Ok(found) && found.0 == so_far
            + named_arguments(args) && tgf::attacks_from(s, lexemes, found.1, Seq::empty())
            == Ok::<_, Failure>(named_attacks(atts)),
    decreases args.len(),
{
    lemma_file_texts();
    reveal_strlit("a");
    let lines = attack_lines(atts, Format::Tgf, false);
    if args.len() == 0 {
        assert(argument_lines(args, Format::Tgf, false) =~= Seq::<char>::empty());
        assert(s.skip(at) =~= "#\n"@ + lines);
        lemma_skip_split(s, at, "#\n"@, lines);
        assert(s.subrange(at, at + 2)[0] == s[at]);
        assert(s.subrange(at, at + 2)[1] == s[at + 1]);
        lemma_attack_lines_begin(atts);
        assert(statement_boundary(s, at + 2)) by {
            if lines.len() > 0 {
                assert(s.skip(at + 2)[0] == s[at + 2]);
            }
        }
        lemma_lex_symbol::<tgf::Token>(s, at);
        lemma_run_to(s, PieceKind::Breaks, at + 2, at + 2);
        lemma_lex_piece::<tgf::Token>(s, at + 1, at + 2);
        assert(s.subrange(at + 1, at + 2) =~= seq!['\n']);
        let one = seq![file_lexeme(tgf::Token::Hash, at, at + 1)];
        lemma_holds_at(lexemes, k, one, lexemes_from::<tgf::Token>(s, at + 2));
        assert(lexemes[k + 0] == one[0]);
        assert(so_far + named_arguments(args) =~= so_far);
        lemma_read_attack_lines(s, lexemes, k + 1, at + 2, atts, Seq::empty());
        assert(Seq::<AttackView>::empty() + named_attacks(atts) =~= named_attacks(atts));
    } else {
        let a = args[0].0;
        let name = name_of(a.id);
        let n = name.len() as int;
        let end = line_end(a.optional);
        let line = argument_line(args[0], Format::Tgf, false);
        let others = argument_lines(args.drop_first(), Format::Tgf, false) + "#\n"@ + lines;
        lemma_name_of(a.id);
        lemma_argument_lines_front(args);
        assert(line =~= name + end);
        assert(s.skip(at) =~= line + others);
        lemma_skip_split(s, at, line, others);
        let next_at = at + line.len();
        assert(others.len() > 0);
        assert(others[0] == 'a' || others[0] == '#') by {
            if args.drop_first().len() > 0 {
                lemma_argument_lines_front(args.drop_first());
                lemma_name_of(args.drop_first()[0].0.id);
                let next_line = argument_line(args.drop_first()[0], Format::Tgf, false);
                assert(next_line[0] == 'a');
            } else {
                assert(argument_lines(args.drop_first(), Format::Tgf, false) =~= Seq::<
                    char,
                >::empty());
            }
        }
        assert(s.skip(next_at)[0] == s[next_at]);
        lemma_lex_name_and_end(s, at, a.id, a.optional);
        let tokens = name_tokens(at, n, a.optional);
        lemma_holds_at(lexemes, k, tokens, lexemes_from::<tgf::Token>(s, next_at));
        assert(lexemes[k + 0] == tokens[0]);
        assert(text(s, lexemes[k]) == name);
        let count = tokens.len() as int;
        if a.optional {
            assert(lexemes[k + 1] == tokens[1]);
            assert(tgf::marked(lexemes, k));
        } else {
            lemma_no_mark_ahead(s, lexemes, k + 1, next_at);
            assert(!tgf::marked(lexemes, k));
        }
        let grown = so_far.push(ArgumentView { id: name, optional: a.optional });
        lemma_read_lines(s, lexemes, k + count, next_at, args.drop_first(), atts, grown);
        assert(grown + named_arguments(args.drop_first()) =~= so_far + named_arguments(args));
    }
}

/// The framework file that the generator writes in the terse format is
/// read back as the framework: the same arguments and attacks in the same
/// order, each optional exactly if it was.
///
/// This holds of texts that a machine can hold.
pub proof fn lemma_terse_framework_is_read_back(
    args: Seq<ArgumentWithState>,
    atts: Seq<AttackWithState>,
)
    requires
        framework_text(args, atts, Format::Tgf, false).len() <= usize::MAX,
    ensures
        tgf::parse(framework_text(args, atts, Format::Tgf, false)) == Ok::<_, Failure>(
            (named_arguments(args), named_attacks(atts)),
        ),
{
    let s = framework_text(args, atts, Format::Tgf, false);
    let tokens = lexemes::<tgf::Token>(s);
    assert(s.skip(0) == s);
    assert(tokens.skip(0) == tokens);
    lemma_read_lines(s, tokens, 0, 0, args, atts, Seq::empty());
    assert(Seq::<ArgumentView>::empty() + named_arguments(args) =~= named_arguments(args));
}

} // verus!
