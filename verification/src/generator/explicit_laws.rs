//! What the generator writes in the explicit update format is read back as
//! it was meant.
use vstd::prelude::*;

use crate::argumentation_framework::parser::apxm::{
    after_arg, after_att, parse, patch_at, patches_from, rest_of_patch, sign_at, AddDel, Token,
};
use crate::argumentation_framework::parser::round_trip::{
    holds_at, lemma_holds_at, lemma_lex_blank, lemma_lex_symbol, lemma_lex_word, lemma_split,
    lemma_stands,
};
use crate::argumentation_framework::parser::{
    agreement, is_name, is_name_char, is_name_start, lexemes, lexemes_from, stands, text, Dialect,
    Lexeme, PieceKind,
};
use crate::argumentation_framework::parser::apx;
use crate::argumentation_framework::parser::round_trip::{
    all_nameable, lemma_round_trip, nameable,
};
use crate::argumentation_framework::symbols::{ArgumentView, AttackView, State};
use crate::argumentation_framework::{distinct_arguments, distinct_attacks};
use crate::generator::framework::{
    argument_line, argument_lines, attack_line, attack_lines, framework_text, pair_before, AF,
};
use crate::generator::types::{ArgumentWithState, AttackWithState};
use crate::argumentation_framework::PatchView;
use crate::framework::Failure;
use crate::generator::types::{name_of, Argument, Attack, ARGUMENT_PREFIX};
use crate::generator::update::{apx_argument_text, apx_attack_text, chain_text, UpdateLine};
use crate::generator::Format;
use crate::text::{decimal, digit};

verus! {

/// A decimal numeral is made of digits, at least one.
pub proof fn lemma_decimal_digits(n: nat)
    ensures
        decimal(n).len() >= 1,
        forall|i: int| 0 <= i < decimal(n).len() ==> '0' <= #[trigger] decimal(n)[i] <= '9',
    decreases n,
{
    if n >= 10 {
        lemma_decimal_digits(n / 10);
    }
}

/// The name of a numbered argument can stand as a name in both formats,
/// and is none of the words that the explicit format keeps for itself.
pub proof fn lemma_name_of(id: usize)
    ensures
        is_name(name_of(id)),
        name_of(id).len() >= 2,
        name_of(id) != "arg"@,
        name_of(id) != "att"@,
        name_of(id) != "opt"@,
{
    reveal_strlit("a");
    reveal_strlit("arg");
    reveal_strlit("att");
    reveal_strlit("opt");
    lemma_decimal_digits(id as nat);
    let name = name_of(id);
    let numeral = decimal(id as nat);
    assert(ARGUMENT_PREFIX@.len() == 1);
    assert(name[0] == 'a');
    assert forall|i: int| 0 <= i < name.len() implies is_name_char(#[trigger] name[i]) by {
        if i > 0 {
            assert(name[i] == numeral[i - 1]);
        }
    }
    assert(name[1] == numeral[0]);
    assert("arg"@[1] == 'r');
    assert("att"@[1] == 't');
    assert("opt"@[1] == 'p');
}

/// The argument that a numbered argument is in an update line.
pub open spec fn named_argument(argument: Argument) -> ArgumentView {
    ArgumentView { id: name_of(argument.id), optional: false }
}

/// The attack that a numbered attack is in an update line.
pub open spec fn named_attack(attack: Attack) -> AttackView {
    AttackView { from: name_of(attack.from), to: name_of(attack.to), optional: false }
}

/// The patches that enable the attacks, in order.
pub open spec fn attack_patches(attacks: Seq<Attack>) -> Seq<PatchView> {
    Seq::new(attacks.len(), |i: int| PatchView::EnableAttack(named_attack(attacks[i])))
}

/// The patches that an update line stands for.
pub open spec fn patches_of(line: UpdateLine) -> Seq<PatchView> {
    match line {
        UpdateLine::EnableArgument(argument, attacks) => seq![
            PatchView::EnableArgument(named_argument(argument)),
        ] + attack_patches(attacks@),
        UpdateLine::DisableArgument(argument) => seq![
            PatchView::DisableArgument(named_argument(argument)),
        ],
        UpdateLine::EnableAttack(attack) => seq![PatchView::EnableAttack(named_attack(attack))],
        UpdateLine::DisableAttack(attack) => seq![PatchView::DisableAttack(named_attack(attack))],
    }
}

/// The token `token` over the characters from `start` up to `end`.
pub open spec fn lexeme(token: Token, start: int, end: int) -> Lexeme<Token> {
    Lexeme { token, start: start as usize, end: end as usize }
}

/// The tokens of `arg(name)` where the name has `n` characters and the
/// text begins at the place `at`.
pub open spec fn argument_tokens(at: int, n: int) -> Seq<Lexeme<Token>> {
    seq![
        lexeme(Token::Arg, at, at + 3),
        lexeme(Token::LeftParen, at + 3, at + 4),
        lexeme(Token::Text, at + 4, at + 4 + n),
        lexeme(Token::RightParen, at + 4 + n, at + 5 + n),
    ]
}

/// The tokens of `att(name, name)` where the names have `n` and `m`
/// characters and the text begins at the place `at`.
pub open spec fn attack_tokens(at: int, n: int, m: int) -> Seq<Lexeme<Token>> {
    seq![
        lexeme(Token::Attack, at, at + 3),
        lexeme(Token::LeftParen, at + 3, at + 4),
        lexeme(Token::Text, at + 4, at + 4 + n),
        lexeme(Token::Comma, at + 4 + n, at + 5 + n),
        lexeme(Token::Text, at + 6 + n, at + 6 + n + m),
        lexeme(Token::RightParen, at + 6 + n + m, at + 7 + n + m),
    ]
}

/// The characters of the fixed texts of the explicit update format.
pub proof fn lemma_fixed_texts()
    ensures
        "arg"@ == seq!['a', 'r', 'g'],
        "att"@ == seq!['a', 't', 't'],
        "arg("@ == seq!['a', 'r', 'g', '('],
        "att("@ == seq!['a', 't', 't', '('],
        ")"@ == seq![')'],
        ", "@ == seq![',', ' '],
        "."@ == seq!['.'],
        ":"@ == seq![':'],
        "+"@ == seq!['+'],
        "-"@ == seq!['-'],
        " "@ == seq![' '],
{
    reveal_strlit("arg");
    reveal_strlit("att");
    reveal_strlit("arg(");
    reveal_strlit("att(");
    reveal_strlit(")");
    reveal_strlit(", ");
    reveal_strlit(".");
    reveal_strlit(":");
    reveal_strlit("+");
    reveal_strlit("-");
    reveal_strlit(" ");
    assert("arg"@ =~= seq!['a', 'r', 'g']);
    assert("att"@ =~= seq!['a', 't', 't']);
    assert("arg("@ =~= seq!['a', 'r', 'g', '(']);
    assert("att("@ =~= seq!['a', 't', 't', '(']);
    assert(")"@ =~= seq![')']);
    assert(", "@ =~= seq![',', ' ']);
    assert("."@ =~= seq!['.']);
    assert(":"@ =~= seq![':']);
    assert("+"@ =~= seq!['+']);
    assert("-"@ =~= seq!['-']);
    assert(" "@ =~= seq![' ']);
}

/// `arg(name)` is read as its four tokens.
pub proof fn lemma_lex_argument(s: Seq<char>, at: int, id: usize)
    requires
        0 <= at,
        at + name_of(id).len() + 5 <= s.len(),
        s.len() <= usize::MAX,
        s.subrange(at, at + name_of(id).len() + 5) == apx_argument_text(
            Argument { id, optional: false },
        ),
    ensures
        lexemes_from::<Token>(s, at) == argument_tokens(at, name_of(id).len() as int)
            + lexemes_from::<Token>(s, at + name_of(id).len() + 5),
        s.subrange(at + 4, at + 4 + name_of(id).len()) == name_of(id),
{
    lemma_fixed_texts();
    lemma_name_of(id);
    let name = name_of(id);
    let n = name.len() as int;
    assert(apx_argument_text(Argument { id, optional: false }) == ("arg("@ + name) + ")"@);
    lemma_split(s, at, "arg("@ + name, ")"@);
    lemma_split(s, at, "arg("@, name);
    let head = s.subrange(at, at + 4);
    assert(head[0] == s[at] && head[1] == s[at + 1] && head[2] == s[at + 2] && head[3] == s[at + 3]);
    assert(s.subrange(at + 4 + n, at + 5 + n)[0] == s[at + 4 + n]);
    assert(s.subrange(at, at + 3) =~= "arg"@);
    assert(is_name("arg"@));
    lemma_lex_word::<Token>(s, at, "arg"@);
    lemma_lex_symbol::<Token>(s, at + 3);
    lemma_lex_word::<Token>(s, at + 4, name);
    lemma_lex_symbol::<Token>(s, at + 4 + n);
    assert(lexemes_from::<Token>(s, at) =~= argument_tokens(at, n) + lexemes_from::<Token>(
        s,
        at + n + 5,
    ));
}

/// `att(name, name)` is read as its six tokens.
pub proof fn lemma_lex_attack(s: Seq<char>, at: int, from: usize, to: usize)
    requires
        0 <= at,
        at + name_of(from).len() + name_of(to).len() + 7 <= s.len(),
        s.len() <= usize::MAX,
        s.subrange(at, at + name_of(from).len() + name_of(to).len() + 7) == apx_attack_text(
            Attack { from, to, optional: false },
        ),
    ensures
        lexemes_from::<Token>(s, at) == attack_tokens(
            at,
            name_of(from).len() as int,
            name_of(to).len() as int,
        ) + lexemes_from::<Token>(s, at + name_of(from).len() + name_of(to).len() + 7),
        s.subrange(at + 4, at + 4 + name_of(from).len()) == name_of(from),
        s.subrange(
            at + 6 + name_of(from).len(),
            at + 6 + name_of(from).len() + name_of(to).len(),
        ) == name_of(to),
{
    lemma_fixed_texts();
    lemma_name_of(from);
    lemma_name_of(to);
    let f = name_of(from);
    let t = name_of(to);
    let n = f.len() as int;
    let m = t.len() as int;
    assert(apx_attack_text(Attack { from, to, optional: false }) == ((("att("@ + f) + ", "@) + t)
        + ")"@);
    lemma_split(s, at, (("att("@ + f) + ", "@) + t, ")"@);
    lemma_split(s, at, ("att("@ + f) + ", "@, t);
    lemma_split(s, at, "att("@ + f, ", "@);
    lemma_split(s, at, "att("@, f);
    let head = s.subrange(at, at + 4);
    assert(head[0] == s[at] && head[1] == s[at + 1] && head[2] == s[at + 2] && head[3] == s[at + 3]);
    let comma = s.subrange(at + 4 + n, at + 6 + n);
    assert(comma[0] == s[at + 4 + n] && comma[1] == s[at + 5 + n]);
    assert(s.subrange(at + 6 + n, at + 6 + n + m)[0] == s[at + 6 + n]);
    assert(s.subrange(at + 6 + n + m, at + 7 + n + m)[0] == s[at + 6 + n + m]);
    assert(s.subrange(at, at + 3) =~= "att"@);
    assert(is_name("att"@));
    lemma_lex_word::<Token>(s, at, "att"@);
    lemma_lex_symbol::<Token>(s, at + 3);
    lemma_lex_word::<Token>(s, at + 4, f);
    lemma_lex_symbol::<Token>(s, at + 4 + n);
    lemma_lex_blank::<Token>(s, at + 5 + n);
    lemma_lex_word::<Token>(s, at + 6 + n, t);
    lemma_lex_symbol::<Token>(s, at + 6 + n + m);
    assert(lexemes_from::<Token>(s, at) =~= attack_tokens(at, n, m) + lexemes_from::<Token>(
        s,
        at + n + m + 7,
    ));
}


/// The chain of attacks is the first of them behind a colon, then the
/// chain of the others.
pub proof fn lemma_chain_front(attacks: Seq<Attack>, format: Format)
    requires
        attacks.len() > 0,
    ensures
        chain_text(attacks, format) == ":"@ + chain_text(seq![attacks[0]], format).skip(1)
            + chain_text(attacks.drop_first(), format),
        chain_text(seq![attacks[0]], format).len() >= 1,
        chain_text(seq![attacks[0]], format)[0] == ':',
    decreases attacks.len(),
{
    lemma_fixed_texts();
    let one = seq![attacks[0]];
    assert(one.drop_last().len() == 0);
    assert(one.last() == attacks[0]);
    assert(chain_text(one.drop_last(), format) =~= Seq::<char>::empty());
    let piece = chain_text(one, format);
    assert(piece[0] == ':');
    assert(piece =~= ":"@ + piece.skip(1));
    if attacks.len() == 1 {
        assert(attacks =~= one);
        assert(attacks.drop_first().len() == 0);
        assert(chain_text(attacks.drop_first(), format) =~= Seq::<char>::empty());
        assert(chain_text(attacks, format) =~= ":"@ + piece.skip(1) + chain_text(
            attacks.drop_first(),
            format,
        ));
    } else {
        lemma_chain_front(attacks.drop_last(), format);
        assert(attacks.drop_last()[0] == attacks[0]);
        assert(attacks.drop_last().drop_first() == attacks.drop_first().drop_last());
        assert(attacks.drop_first().last() == attacks.last());
        assert(chain_text(attacks, format) =~= ":"@ + piece.skip(1) + chain_text(
            attacks.drop_first(),
            format,
        ));
    }
}

/// The patches of the attacks of a chain, under the sign of the line.
pub open spec fn chain_patches(attacks: Seq<Attack>, sign: AddDel) -> Seq<PatchView> {
    Seq::new(attacks.len(), |i: int| sign.att_patch(named_attack(attacks[i])))
}

/// Where a text goes on as one text and then another, the first stands
/// there and the other behind it.
pub proof fn lemma_skip_split(s: Seq<char>, at: int, first: Seq<char>, rest: Seq<char>)
    requires
        0 <= at <= s.len(),
        s.skip(at) == first + rest,
    ensures
        at + first.len() <= s.len(),
        s.subrange(at, at + first.len()) == first,
        s.skip(at + first.len()) == rest,
{
    let tail = s.skip(at);
    assert(tail.len() == first.len() + rest.len());
    assert forall|i: int| 0 <= i < first.len() implies s.subrange(at, at + first.len())[i]
        == first[i] by {
        assert(tail[i] == s[at + i]);
        assert((first + rest)[i] == first[i]);
    }
    assert(s.subrange(at, at + first.len()) =~= first);
    assert forall|i: int| 0 <= i < rest.len() implies s.skip(at + first.len())[i] == rest[i] by {
        assert(tail[first.len() + i] == s[at + first.len() + i]);
        assert((first + rest)[first.len() + i] == rest[i]);
    }
    assert(s.skip(at + first.len()) =~= rest);
}

/// What the reader does once it has read a patch and stands before the
/// token behind it: a colon leads to the next patch, a period closes the
/// line.
pub open spec fn go_on(
    s: Seq<char>,
    lexemes: Seq<Lexeme<Token>>,
    next: int,
    sign: AddDel,
    patches: Seq<PatchView>,
) -> Result<Seq<PatchView>, Failure> {
    if next >= lexemes.len() {
        Err(Failure::UnexpectedEndOfInput)
    } else if lexemes[next].token == Token::Colon {
        patches_from(s, lexemes, next + 1, sign, patches)
    } else if lexemes[next].token == Token::Period {
        Ok(patches)
    } else {
        Err(crate::argumentation_framework::parser::failure_at(s, lexemes, next))
    }
}

/// Where `att(name, name)` stands, the reader finds the patch of the
/// attack and goes on behind it.
pub proof fn lemma_patch_attack(
    s: Seq<char>,
    lexemes: Seq<Lexeme<Token>>,
    k: int,
    at: int,
    first: Attack,
    sign: AddDel,
    so_far: Seq<PatchView>,
)
    requires
        0 <= k <= lexemes.len(),
        0 <= at,
        at + apx_attack_text(first).len() <= s.len() <= usize::MAX,
        lexemes.skip(k) == lexemes_from::<Token>(s, at),
        s.subrange(at, at + apx_attack_text(first).len()) == apx_attack_text(first),
    ensures
        k + 6 <= lexemes.len(),
        lexemes.skip(k + 6) == lexemes_from::<Token>(s, at + apx_attack_text(first).len()),
        patches_from(s, lexemes, k, sign, so_far) == go_on(
            s,
            lexemes,
            k + 6,
            sign,
            so_far.push(sign.att_patch(named_attack(first))),
        ),
{
    lemma_fixed_texts();
    let f = name_of(first.from);
    let t = name_of(first.to);
    let n = f.len() as int;
    let m = t.len() as int;
    let d = apx_attack_text(first);
    assert(d == apx_attack_text(Attack { from: first.from, to: first.to, optional: false }));
    assert(d.len() == n + m + 7);
    lemma_lex_attack(s, at, first.from, first.to);
    let tokens = attack_tokens(at, n, m);
    lemma_holds_at(lexemes, k, tokens, lexemes_from::<Token>(s, at + n + m + 7));
    assert(lexemes[k + 0] == tokens[0]);
    assert(lexemes[k + 1] == tokens[1]);
    assert(lexemes[k + 2] == tokens[2]);
    assert(lexemes[k + 3] == tokens[3]);
    assert(lexemes[k + 4] == tokens[4]);
    assert(lexemes[k + 5] == tokens[5]);
    assert(lexemes[k].token == Token::Attack);
    assert(rest_of_patch(lexemes, k) == after_att());
    lemma_stands(lexemes, k + 1, after_att());
    assert(text(s, lexemes[k + 2]) == f);
    assert(text(s, lexemes[k + 4]) == t);
    assert(patch_at(s, lexemes, k, sign) == sign.att_patch(named_attack(first)));
}

/// Where `arg(name)` stands, the reader finds the patch of the argument
/// and goes on behind it.
pub proof fn lemma_patch_argument(
    s: Seq<char>,
    lexemes: Seq<Lexeme<Token>>,
    k: int,
    at: int,
    first: Argument,
    sign: AddDel,
    so_far: Seq<PatchView>,
)
    requires
        0 <= k <= lexemes.len(),
        0 <= at,
        at + apx_argument_text(first).len() <= s.len() <= usize::MAX,
        lexemes.skip(k) == lexemes_from::<Token>(s, at),
        s.subrange(at, at + apx_argument_text(first).len()) == apx_argument_text(first),
    ensures
        k + 4 <= lexemes.len(),
        lexemes.skip(k + 4) == lexemes_from::<Token>(s, at + apx_argument_text(first).len()),
        patches_from(s, lexemes, k, sign, so_far) == go_on(
            s,
            lexemes,
            k + 4,
            sign,
            so_far.push(sign.arg_patch(named_argument(first))),
        ),
{
    lemma_fixed_texts();
    let name = name_of(first.id);
    let n = name.len() as int;
    let d = apx_argument_text(first);
    assert(d == apx_argument_text(Argument { id: first.id, optional: false }));
    assert(d.len() == n + 5);
    lemma_lex_argument(s, at, first.id);
    let tokens = argument_tokens(at, n);
    lemma_holds_at(lexemes, k, tokens, lexemes_from::<Token>(s, at + n + 5));
    assert(lexemes[k + 0] == tokens[0]);
    assert(lexemes[k + 1] == tokens[1]);
    assert(lexemes[k + 2] == tokens[2]);
    assert(lexemes[k + 3] == tokens[3]);
    assert(lexemes[k].token == Token::Arg);
    assert(rest_of_patch(lexemes, k) == after_arg());
    lemma_stands(lexemes, k + 1, after_arg());
    assert(text(s, lexemes[k + 2]) == name);
    assert(patch_at(s, lexemes, k, sign) == sign.arg_patch(named_argument(first)));
}

/// A character that is a token by itself is the next token where it
/// stands.
pub proof fn lemma_next_symbol(s: Seq<char>, lexemes: Seq<Lexeme<Token>>, next: int, at: int)
    requires
        0 <= next <= lexemes.len(),
        0 <= at < s.len() <= usize::MAX,
        lexemes.skip(next) == lexemes_from::<Token>(s, at),
        s[at] == ':' || s[at] == '.' || s[at] == '+' || s[at] == '-',
    ensures
        next < lexemes.len(),
        lexemes[next].token == Token::classify(PieceKind::Other, seq![s[at]])->Some_0,
        lexemes.skip(next + 1) == lexemes_from::<Token>(s, at + 1),
{
    lemma_lex_symbol::<Token>(s, at);
    let rest = lexemes_from::<Token>(s, at + 1);
    let one = seq![
        Lexeme {
            token: Token::classify(PieceKind::Other, seq![s[at]])->Some_0,
            start: at as usize,
            end: (at + 1) as usize,
        },
    ];
    lemma_holds_at(lexemes, next, one, rest);
    assert(lexemes[next + 0] == one[0]);
}

/// A chain of attacks that ends with a period is read as the patches of
/// these attacks.
pub proof fn lemma_read_chain(
    s: Seq<char>,
    lexemes: Seq<Lexeme<Token>>,
    next: int,
    at: int,
    others: Seq<Attack>,
    sign: AddDel,
    patches: Seq<PatchView>,
)
    requires
        0 <= next <= lexemes.len(),
        0 <= at <= s.len() <= usize::MAX,
        lexemes.skip(next) == lexemes_from::<Token>(s, at),
        s.skip(at) == chain_text(others, Format::Apx) + "."@,
    ensures
        go_on(s, lexemes, next, sign, patches) == Ok::<_, Failure>(
            patches + chain_patches(others, sign),
        ),
    decreases others.len(),
{
    lemma_fixed_texts();
    if others.len() == 0 {
        assert(chain_text(others, Format::Apx) =~= Seq::<char>::empty());
        assert(s.skip(at) =~= "."@);
        assert(s.skip(at)[0] == s[at]);
        lemma_next_symbol(s, lexemes, next, at);
        assert(chain_patches(others, sign) =~= Seq::<PatchView>::empty());
        assert(patches + chain_patches(others, sign) =~= patches);
    } else {
        lemma_chain_front(others, Format::Apx);
        let piece = chain_text(seq![others[0]], Format::Apx);
        let d = apx_attack_text(others[0]);
        assert(seq![others[0]].drop_last().len() == 0);
        assert(seq![others[0]].last() == others[0]);
        assert(chain_text(seq![others[0]].drop_last(), Format::Apx) =~= Seq::<char>::empty());
        assert(piece =~= ":"@ + d);
        assert(piece.skip(1) =~= d);
        let rest = chain_text(others.drop_first(), Format::Apx) + "."@;
        assert(s.skip(at) =~= ":"@ + (d + rest));
        lemma_skip_split(s, at, ":"@, d + rest);
        assert(s.subrange(at, at + 1)[0] == s[at]);
        lemma_next_symbol(s, lexemes, next, at);
        lemma_skip_split(s, at + 1, d, rest);
        let grown = patches.push(sign.att_patch(named_attack(others[0])));
        lemma_patch_attack(s, lexemes, next + 1, at + 1, others[0], sign, patches);
        lemma_read_chain(
            s,
            lexemes,
            next + 7,
            at + 1 + d.len(),
            others.drop_first(),
            sign,
            grown,
        );
        assert(grown + chain_patches(others.drop_first(), sign) =~= patches + chain_patches(
            others,
            sign,
        ));
    }
}


/// A line that begins with a sign, names an argument, goes on with a chain
/// of attacks and ends with a period is read as the patches of the
/// argument and the attacks, under the sign.
pub proof fn lemma_read_argument_line(s: Seq<char>, first: Argument, others: Seq<Attack>, sign: AddDel)
    requires
        s.len() <= usize::MAX,
        s == (if sign == AddDel::Add {
            "+"@
        } else {
            "-"@
        }) + apx_argument_text(first) + chain_text(others, Format::Apx) + "."@,
    ensures
        parse(s) == Ok::<_, Failure>(
            seq![sign.arg_patch(named_argument(first))] + chain_patches(others, sign),
        ),
{
    lemma_fixed_texts();
    let tokens = lexemes::<Token>(s);
    let mark = if sign == AddDel::Add {
        "+"@
    } else {
        "-"@
    };
    let d = apx_argument_text(first);
    let tail = chain_text(others, Format::Apx) + "."@;
    assert(s =~= mark + (d + tail));
    assert(s.skip(0) == s);
    assert(tokens.skip(0) == tokens);
    lemma_skip_split(s, 0, mark, d + tail);
    assert(s.subrange(0, 1)[0] == s[0]);
    lemma_next_symbol(s, tokens, 0, 0);
    assert(sign_at(s, tokens, 0) == Ok::<_, Failure>(sign));
    lemma_skip_split(s, 1, d, tail);
    let none = Seq::<PatchView>::empty();
    lemma_patch_argument(s, tokens, 1, 1, first, sign, none);
    let one = none.push(sign.arg_patch(named_argument(first)));
    lemma_read_chain(s, tokens, 5, (1 + d.len()) as int, others, sign, one);
    assert(one =~= seq![sign.arg_patch(named_argument(first))]);
}

/// A line that begins with a sign, names an attack and ends with a period
/// is read as the patch of the attack, under the sign.
pub proof fn lemma_read_attack_line(s: Seq<char>, first: Attack, sign: AddDel)
    requires
        s.len() <= usize::MAX,
        s == (if sign == AddDel::Add {
            "+"@
        } else {
            "-"@
        }) + apx_attack_text(first) + "."@,
    ensures
        parse(s) == Ok::<_, Failure>(seq![sign.att_patch(named_attack(first))]),
{
    lemma_fixed_texts();
    let tokens = lexemes::<Token>(s);
    let mark = if sign == AddDel::Add {
        "+"@
    } else {
        "-"@
    };
    let d = apx_attack_text(first);
    let others = Seq::<Attack>::empty();
    assert(chain_text(others, Format::Apx) =~= Seq::<char>::empty());
    let tail = chain_text(others, Format::Apx) + "."@;
    assert(tail =~= "."@);
    assert(s =~= mark + (d + tail));
    assert(s.skip(0) == s);
    assert(tokens.skip(0) == tokens);
    lemma_skip_split(s, 0, mark, d + tail);
    assert(s.subrange(0, 1)[0] == s[0]);
    lemma_next_symbol(s, tokens, 0, 0);
    assert(sign_at(s, tokens, 0) == Ok::<_, Failure>(sign));
    lemma_skip_split(s, 1, d, tail);
    let none = Seq::<PatchView>::empty();
    lemma_patch_attack(s, tokens, 1, 1, first, sign, none);
    let one = none.push(sign.att_patch(named_attack(first)));
    lemma_read_chain(s, tokens, 7, (1 + d.len()) as int, others, sign, one);
    assert(chain_patches(others, sign) =~= Seq::<PatchView>::empty());
    assert(one + chain_patches(others, sign) =~= seq![sign.att_patch(named_attack(first))]);
}

/// An update line that the generator writes in the explicit format is read
/// back as the patches that it stands for: the patch of the element that
/// it names and, where it enables an argument, the patches that enable the
/// attacks that come along.
///
/// This holds of lines that a machine can hold.
pub proof fn lemma_explicit_line_is_read_back(line: UpdateLine)
    requires
        line.text(Format::Apx).len() <= usize::MAX,
    ensures
        parse(line.text(Format::Apx)) == Ok::<_, Failure>(patches_of(line)),
        crate::argumentation_framework::parser::patches_of(line.text(Format::Apx)) == Ok::<
            _,
            Failure,
        >(patches_of(line)),
{
    let s = line.text(Format::Apx);
    let none = Seq::<Attack>::empty();
    assert(chain_text(none, Format::Apx) =~= Seq::<char>::empty());
    match line {
        UpdateLine::EnableArgument(argument, attacks) => {
            lemma_read_argument_line(s, argument, attacks@, AddDel::Add);
            assert(chain_patches(attacks@, AddDel::Add) =~= attack_patches(attacks@));
        },
        UpdateLine::DisableArgument(argument) => {
            assert(s =~= "-"@ + apx_argument_text(argument) + chain_text(none, Format::Apx) + "."@);
            lemma_read_argument_line(s, argument, none, AddDel::Del);
            assert(chain_patches(none, AddDel::Del) =~= Seq::<PatchView>::empty());
            assert(seq![AddDel::Del.arg_patch(named_argument(argument))] + chain_patches(
                none,
                AddDel::Del,
            ) =~= patches_of(line));
        },
        UpdateLine::EnableAttack(attack) => {
            lemma_read_attack_line(s, attack, AddDel::Add);
        },
        UpdateLine::DisableAttack(attack) => {
            lemma_read_attack_line(s, attack, AddDel::Del);
        },
    }
}


/// Different numbers have different numerals.
pub proof fn lemma_decimal_injective(a: nat, b: nat)
    requires
        decimal(a) == decimal(b),
    ensures
        a == b,
    decreases a,
{
    lemma_decimal_digits(a);
    lemma_decimal_digits(b);
    if a < 10 && b < 10 {
        assert(decimal(a)[0] == digit(a));
        assert(decimal(b)[0] == digit(b));
    } else if a < 10 {
        lemma_decimal_digits(b / 10);
        assert(decimal(b).len() >= 2);
    } else if b < 10 {
        lemma_decimal_digits(a / 10);
        assert(decimal(a).len() >= 2);
    } else {
        let x = decimal(a / 10);
        let y = decimal(b / 10);
        assert(x.push(digit(a % 10)).drop_last() == x);
        assert(y.push(digit(b % 10)).drop_last() == y);
        assert(x.push(digit(a % 10)).last() == digit(a % 10));
        assert(y.push(digit(b % 10)).last() == digit(b % 10));
        lemma_decimal_injective(a / 10, b / 10);
    }
}

/// Different numbers give different names.
pub proof fn lemma_name_of_injective(a: usize, b: usize)
    requires
        name_of(a) == name_of(b),
    ensures
        a == b,
{
    reveal_strlit("a");
    assert(name_of(a).skip(1) =~= decimal(a as nat));
    assert(name_of(b).skip(1) =~= decimal(b as nat));
    lemma_decimal_injective(a as nat, b as nat);
}

/// The arguments of the generator as the readers know them.
pub open spec fn named_arguments(args: Seq<ArgumentWithState>) -> Seq<ArgumentView> {
    Seq::new(
        args.len(),
        |i: int| ArgumentView { id: name_of(args[i].0.id), optional: args[i].0.optional },
    )
}

/// The attacks of the generator as the readers know them.
pub open spec fn named_attacks(atts: Seq<AttackWithState>) -> Seq<AttackView> {
    Seq::new(
        atts.len(),
        |i: int|
            AttackView {
                from: name_of(atts[i].0.from),
                to: name_of(atts[i].0.to),
                optional: atts[i].0.optional,
            },
    )
}

/// The full text of a framework of the generator, in the explicit format,
/// is the text that the declarations and marks of its elements make.
pub proof fn lemma_full_text_is_rendered(args: Seq<ArgumentWithState>, atts: Seq<AttackWithState>)
    ensures
        argument_lines(args, Format::Apx, false) == apx::arguments_text(named_arguments(args)),
        attack_lines(atts, Format::Apx, false) == apx::attacks_text(named_attacks(atts)),
        framework_text(args, atts, Format::Apx, false) == apx::render(
            named_arguments(args),
            named_attacks(atts),
        ),
    decreases args.len() + atts.len(),
{
    if args.len() > 0 {
        lemma_full_text_is_rendered(args.drop_last(), Seq::empty());
        assert(named_arguments(args).drop_last() =~= named_arguments(args.drop_last()));
        assert(argument_line(args.last(), Format::Apx, false) == apx::argument_statements(
            named_arguments(args).last(),
        ));
    }
    if atts.len() > 0 {
        lemma_full_text_is_rendered(Seq::empty(), atts.drop_last());
        assert(named_attacks(atts).drop_last() =~= named_attacks(atts.drop_last()));
        assert(attack_line(atts.last(), Format::Apx, false) == apx::attack_statements(
            named_attacks(atts).last(),
        ));
    }
    assert(framework_text(args, atts, Format::Apx, false) =~= apx::render(
        named_arguments(args),
        named_attacks(atts),
    ));
}

/// The framework file that the generator writes for a fresh framework, in
/// the explicit format, is read back as that framework: the same arguments
/// and attacks in the same order, each optional exactly if it was.
///
/// This holds of texts that a machine can hold.
pub proof fn lemma_fresh_framework_is_read_back(af: AF, arg_count: usize)
    requires
        af.fresh(arg_count),
        framework_text(af.args@, af.atts@, Format::Apx, false).len() <= usize::MAX,
    ensures
        apx::parse(framework_text(af.args@, af.atts@, Format::Apx, false)) == Ok::<_, Failure>(
            (named_arguments(af.args@), named_attacks(af.atts@)),
        ),
{
    let args = named_arguments(af.args@);
    let atts = named_attacks(af.atts@);
    lemma_full_text_is_rendered(af.args@, af.atts@);
    assert forall|i: int| 0 <= i < args.len() implies nameable((#[trigger] args[i]).id) by {
        lemma_name_of(af.args@[i].0.id);
    }
    assert forall|j: int| 0 <= j < atts.len() implies nameable((#[trigger] atts[j]).from)
        && nameable(atts[j].to) by {
        lemma_name_of(af.atts@[j].0.from);
        lemma_name_of(af.atts@[j].0.to);
    }
    assert forall|i: int, j: int| 0 <= i < j < args.len() implies (#[trigger] args[i]).id != (
    #[trigger] args[j]).id by {
        if args[i].id == args[j].id {
            lemma_name_of_injective(af.args@[i].0.id, af.args@[j].0.id);
        }
    }
    assert forall|i: int, j: int| 0 <= i < j < atts.len() implies !((#[trigger] atts[i]).from == (
    #[trigger] atts[j]).from && atts[i].to == atts[j].to) by {
        if atts[i].from == atts[j].from && atts[i].to == atts[j].to {
            lemma_name_of_injective(af.atts@[i].0.from, af.atts@[j].0.from);
            lemma_name_of_injective(af.atts@[i].0.to, af.atts@[j].0.to);
            assert(pair_before(
                af.atts@[i].0.from,
                af.atts@[i].0.to,
                af.atts@[j].0.from,
                af.atts@[j].0.to,
            ));
        }
    }
    lemma_round_trip(args, atts);
}

} // verus!
