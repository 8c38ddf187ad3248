//! The scanner: character classification, the token model, and the
//! left-to-right tokenization pass.

use vstd::prelude::*;

verus! {

/// One classified lexical unit produced by the scanner. `Number` and
/// `Identifier` carry the exact source text they were matched from,
/// preserved verbatim (a number keeps its leading zeros; nothing is
/// parsed into a numeric value).
#[derive(Debug, PartialEq)]
pub enum Token {
    OpenParens,
    CloseParens,
    Number(String),
    Identifier(String),
}

/// The mathematical model of a token: the same four categories, with the
/// matched text as a sequence of characters.
pub enum TokenModel {
    OpenParens,
    CloseParens,
    Number(Seq<char>),
    Identifier(Seq<char>),
}

impl View for Token {
    type V = TokenModel;

    open spec fn view(&self) -> TokenModel {
        match self {
            Token::OpenParens => TokenModel::OpenParens,
            Token::CloseParens => TokenModel::CloseParens,
            Token::Number(text) => TokenModel::Number(text@),
            Token::Identifier(text) => TokenModel::Identifier(text@),
        }
    }
}

/// The model of a token stream: each token replaced by its model.
pub open spec fn tokens_view(tokens: Seq<Token>) -> Seq<TokenModel> {
    tokens.map_values(|t: Token| t@)
}

/// An ASCII decimal digit, `'0'` through `'9'`.
pub open spec fn spec_is_digit(c: char) -> bool {
    '0' as u32 <= c as u32 && c as u32 <= '9' as u32
}

/// An identifier-start character: an ASCII letter or one of the four
/// arithmetic symbols `+ - * /`.
pub open spec fn spec_is_ident_first(c: char) -> bool {
    ('A' as u32 <= c as u32 && c as u32 <= 'Z' as u32)
    || ('a' as u32 <= c as u32 && c as u32 <= 'z' as u32)
    || c == '+' || c == '-' || c == '*' || c == '/'
}

/// An identifier-continue character: identifier-start or an ASCII digit.
pub open spec fn spec_is_ident(c: char) -> bool {
    spec_is_ident_first(c) || spec_is_digit(c)
}

/// The length of the longest prefix of `s` whose characters all satisfy `p`.
pub open spec fn run_len(s: Seq<char>, p: spec_fn(char) -> bool) -> nat
    decreases s.len(),
{
    if s.len() == 0 || !p(s[0]) {
        0
    } else {
        (1 + run_len(s.skip(1), p)) as nat
    }
}

/// The length of the longest identifier prefix of `s`.
pub open spec fn ident_run_len(s: Seq<char>) -> nat {
    run_len(s, |c: char| spec_is_ident(c))
}

/// The length of the longest digit prefix of `s`.
pub open spec fn digit_run_len(s: Seq<char>) -> nat {
    run_len(s, |c: char| spec_is_digit(c))
}

/// `run_len` names the longest prefix satisfying `p`: it is within bounds,
/// every character before it satisfies `p`, and the character at it (if any)
/// does not.
pub proof fn lemma_run_len_character(s: Seq<char>, p: spec_fn(char) -> bool)
    ensures
        run_len(s, p) <= s.len(),
        forall|k: int| 0 <= k < run_len(s, p) ==> p(s[k]),
        run_len(s, p) < s.len() ==> !p(s[run_len(s, p) as int]),
    decreases s.len(),
{
    if s.len() == 0 || !p(s[0]) {
    } else {
        lemma_run_len_character(s.skip(1), p);
        assert forall|k: int| 0 <= k < run_len(s, p) implies p(s[k]) by {
            if k > 0 {
                assert(p(s.skip(1)[k - 1]));
            }
        }
        if run_len(s, p) < s.len() {
            assert(s.skip(1)[run_len(s.skip(1), p) as int] == s[run_len(s, p) as int]);
        }
    }
}

/// Any position that looks like the end of the run is the end of the run:
/// if all characters before `n` satisfy `p` and the one at `n` (if any) does
/// not, then `run_len` is `n`.
pub proof fn lemma_run_len_of_boundary(s: Seq<char>, p: spec_fn(char) -> bool, n: int)
    requires
        0 <= n <= s.len(),
        forall|k: int| 0 <= k < n ==> p(s[k]),
        n < s.len() ==> !p(s[n]),
    ensures
        run_len(s, p) == n,
{
    lemma_run_len_character(s, p);
    if run_len(s, p) < n {
        assert(p(s[run_len(s, p) as int]));
    }
    if n < run_len(s, p) {
        assert(p(s[n]));
    }
}

/// `lemma_run_len_character`, specialized to the identifier run.
pub proof fn lemma_ident_run_character(s: Seq<char>)
    ensures
        ident_run_len(s) <= s.len(),
        forall|k: int| 0 <= k < ident_run_len(s) ==> spec_is_ident(s[k]),
        ident_run_len(s) < s.len() ==> !spec_is_ident(s[ident_run_len(s) as int]),
{
    lemma_run_len_character(s, |c: char| spec_is_ident(c));
}

/// `lemma_run_len_of_boundary`, specialized to the identifier run.
pub proof fn lemma_ident_run_of_boundary(s: Seq<char>, n: int)
    requires
        0 <= n <= s.len(),
        forall|k: int| 0 <= k < n ==> spec_is_ident(s[k]),
        n < s.len() ==> !spec_is_ident(s[n]),
    ensures
        ident_run_len(s) == n,
{
    lemma_run_len_of_boundary(s, |c: char| spec_is_ident(c), n);
}

/// `lemma_run_len_character`, specialized to the digit run.
pub proof fn lemma_digit_run_character(s: Seq<char>)
    ensures
        digit_run_len(s) <= s.len(),
        forall|k: int| 0 <= k < digit_run_len(s) ==> spec_is_digit(s[k]),
        digit_run_len(s) < s.len() ==> !spec_is_digit(s[digit_run_len(s) as int]),
{
    lemma_run_len_character(s, |c: char| spec_is_digit(c));
}

/// `lemma_run_len_of_boundary`, specialized to the digit run.
pub proof fn lemma_digit_run_of_boundary(s: Seq<char>, n: int)
    requires
        0 <= n <= s.len(),
        forall|k: int| 0 <= k < n ==> spec_is_digit(s[k]),
        n < s.len() ==> !spec_is_digit(s[n]),
    ensures
        digit_run_len(s) == n,
{
    lemma_run_len_of_boundary(s, |c: char| spec_is_digit(c), n);
}

/// The token sequence that the scan of `s` denotes: skip a space, emit a
/// paren for a paren, emit the longest identifier or digit run for an
/// identifier-start or digit character, and stop at anything else.
pub open spec fn spec_tokenize(s: Seq<char>) -> Seq<TokenModel>
    decreases s.len(),
        via spec_tokenize_decreases
{
    if s.len() == 0 {
        Seq::empty()
    } else if s[0] == ' ' {
        spec_tokenize(s.skip(1))
    } else if s[0] == '(' {
        seq![TokenModel::OpenParens] + spec_tokenize(s.skip(1))
    } else if s[0] == ')' {
        seq![TokenModel::CloseParens] + spec_tokenize(s.skip(1))
    } else if spec_is_ident_first(s[0]) {
        seq![TokenModel::Identifier(s.take(ident_run_len(s) as int))]
            + spec_tokenize(s.skip(ident_run_len(s) as int))
    } else if spec_is_digit(s[0]) {
        seq![TokenModel::Number(s.take(digit_run_len(s) as int))]
            + spec_tokenize(s.skip(digit_run_len(s) as int))
    } else {
        Seq::empty()
    }
}

#[via_fn]
proof fn spec_tokenize_decreases(s: Seq<char>) {
    if s.len() > 0 {
        if spec_is_ident_first(s[0]) {
            lemma_run_len_character(s, |c: char| spec_is_ident(c));
        } else if spec_is_digit(s[0]) {
            lemma_run_len_character(s, |c: char| spec_is_digit(c));
        }
    }
}

/// True of the digit characters exactly.
pub fn is_digit(ch: char) -> (r: bool)
    ensures
        r == spec_is_digit(ch),
{
    let u = ch as u32;
    '0' as u32 <= u && u <= '9' as u32
}

/// True of the identifier-start characters exactly.
pub fn is_ident_first(c: char) -> (r: bool)
    ensures
        r == spec_is_ident_first(c),
{
    let u = c as u32;
    ('A' as u32 <= u && u <= 'Z' as u32)
    || ('a' as u32 <= u && u <= 'z' as u32)
    || c == '+' || c == '-' || c == '*' || c == '/'
}

/// True of the identifier-continue characters exactly.
pub fn is_ident(c: char) -> (r: bool)
    ensures
        r == spec_is_ident(c),
{
    is_ident_first(c) || is_digit(c)
}

/// Scan the whole of `src` into its token sequence.
///
/// Scanning is total: no error is ever raised. A character outside the
/// recognized start classes ends the scan early, and the tokens
/// accumulated up to that point are returned.
pub fn tokenize<'a>(src: &'a str) -> (tokens: Vec<Token>)
    ensures
        tokens_view(tokens@) == spec_tokenize(src@),
{
    let ghost s0 = src@;
    let mut src = src;
    let mut tokens: Vec<Token> = Vec::new();
    loop
        invariant
            spec_tokenize(s0) == tokens_view(tokens@) + spec_tokenize(src@),
        ensures
            tokens_view(tokens@) == spec_tokenize(s0),
        decreases src@.len(),
    {
        let ghost prev = src;
        let ghost cur = src@;
        let ghost before = tokens@;
        if src.is_empty() {
            proof {
                assert(tokens_view(tokens@) + spec_tokenize(src@) =~= tokens_view(tokens@));
            }
            break;
        }
        let chr = src.get_char(0);
        if chr == ' ' {
            let len = src.unicode_len();
            src = src.substring_char(1, len);
        } else if chr == '(' {
            src = consume_input(src, tokenize_open_parens, &mut tokens);
            proof {
                let t = choose|t: Token|
                    #[trigger] call_ensures(tokenize_open_parens, (prev,), (t, src))
                        && tokens@ == before.push(t);
                lemma_tokenize_step(before, t, tokens@, cur, src@);
            }
        } else if chr == ')' {
            src = consume_input(src, tokenize_close_parens, &mut tokens);
            proof {
                let t = choose|t: Token|
                    #[trigger] call_ensures(tokenize_close_parens, (prev,), (t, src))
                        && tokens@ == before.push(t);
                lemma_tokenize_step(before, t, tokens@, cur, src@);
            }
        } else if is_ident_first(chr) {
            src = consume_input(src, tokenize_ident, &mut tokens);
            proof {
                let t = choose|t: Token|
                    #[trigger] call_ensures(tokenize_ident, (prev,), (t, src))
                        && tokens@ == before.push(t);
                lemma_tokenize_step(before, t, tokens@, cur, src@);
            }
        } else if is_digit(chr) {
            src = consume_input(src, tokenize_number, &mut tokens);
            proof {
                let t = choose|t: Token|
                    #[trigger] call_ensures(tokenize_number, (prev,), (t, src))
                        && tokens@ == before.push(t);
                lemma_tokenize_step(before, t, tokens@, cur, src@);
            }
        } else {
            proof {
                assert(spec_tokenize(cur) =~= Seq::<TokenModel>::empty());
                assert(tokens_view(tokens@) + spec_tokenize(src@) =~= tokens_view(tokens@));
            }
            break;
        }
    }
    tokens
}

/// One scan step preserves the relation between what is accumulated and
/// what remains: appending the head token of the remaining input moves it
/// from the remainder's scan to the accumulated stream.
proof fn lemma_tokenize_step(
    before: Seq<Token>,
    t: Token,
    after: Seq<Token>,
    cur: Seq<char>,
    rest: Seq<char>,
)
    requires
        after == before.push(t),
        spec_tokenize(cur) == seq![t@] + spec_tokenize(rest),
    ensures
        tokens_view(before) + spec_tokenize(cur) == tokens_view(after) + spec_tokenize(rest),
{
    assert(tokens_view(after) =~= tokens_view(before).push(t@));
    assert(tokens_view(before) + (seq![t@] + spec_tokenize(rest)) =~= tokens_view(before).push(
        t@,
    ) + spec_tokenize(rest));
}

/// Run one sub-rule on the remaining input, append the token it produced,
/// and hand back the input that remains after it.
pub fn consume_input<'a, F: Fn(&'a str) -> (Token, &'a str)>(
    src: &'a str,
    tokenize: F,
    tokens: &mut Vec<Token>,
) -> (rest: &'a str)
    requires
        call_requires(tokenize, (src,)),
    ensures
        exists|t: Token|
            #[trigger] call_ensures(tokenize, (src,), (t, rest))
                && final(tokens)@ == old(tokens)@.push(t),
{
    let (token, rest_src) = tokenize(src);
    tokens.push(token);
    rest_src
}

/// The open-parenthesis rule: consume the single `(` at the cursor and
/// emit an `OpenParens` token.
pub fn tokenize_open_parens<'a>(src: &'a str) -> (res: (Token, &'a str))
    requires
        src@.len() > 0,
        src@[0] == '(',
    ensures
        res.0@ == TokenModel::OpenParens,
        res.1@ == src@.skip(1),
        res.1@.len() < src@.len(),
{
    let len = src.unicode_len();
    (Token::OpenParens, src.substring_char(1, len))
}

/// The close-parenthesis rule: consume the single `)` at the cursor and
/// emit a `CloseParens` token.
pub fn tokenize_close_parens<'a>(src: &'a str) -> (res: (Token, &'a str))
    requires
        src@.len() > 0,
        src@[0] == ')',
    ensures
        res.0@ == TokenModel::CloseParens,
        res.1@ == src@.skip(1),
        res.1@.len() < src@.len(),
{
    let len = src.unicode_len();
    (Token::CloseParens, src.substring_char(1, len))
}

/// The identifier rule: greedily consume the longest prefix of
/// identifier-continue characters and emit it, verbatim, as an
/// `Identifier` token.
pub fn tokenize_ident<'a>(src: &'a str) -> (res: (Token, &'a str))
    requires
        src@.len() > 0,
        spec_is_ident_first(src@[0]),
    ensures
        res.0@ == TokenModel::Identifier(src@.take(ident_run_len(src@) as int)),
        res.1@ == src@.skip(ident_run_len(src@) as int),
        res.1@.len() < src@.len(),
{
    let len = src.unicode_len();
    let mut end: usize = 0;
    loop
        invariant
            len == src@.len(),
            end <= len,
            forall|k: int| 0 <= k < end ==> spec_is_ident(src@[k]),
        ensures
            end <= len,
            forall|k: int| 0 <= k < end ==> spec_is_ident(src@[k]),
            end == len || !spec_is_ident(src@[end as int]),
        decreases len - end,
    {
        if end >= len {
            break;
        }
        let c = src.get_char(end);
        if !is_ident(c) {
            break;
        }
        end = end + 1;
    }
    proof {
        lemma_ident_run_of_boundary(src@, end as int);
    }
    let text = src.substring_char(0, end);
    let rest = src.substring_char(end, len);
    (Token::Identifier(text.to_owned()), rest)
}

/// The number rule: greedily consume the longest prefix of ASCII decimal
/// digits and emit it, verbatim, as a `Number` token.
pub fn tokenize_number<'a>(src: &'a str) -> (res: (Token, &'a str))
    requires
        src@.len() > 0,
        spec_is_digit(src@[0]),
    ensures
        res.0@ == TokenModel::Number(src@.take(digit_run_len(src@) as int)),
        res.1@ == src@.skip(digit_run_len(src@) as int),
        res.1@.len() < src@.len(),
{
    let len = src.unicode_len();
    let mut end: usize = 0;
    loop
        invariant
            len == src@.len(),
            end <= len,
            forall|k: int| 0 <= k < end ==> spec_is_digit(src@[k]),
        ensures
            end <= len,
            forall|k: int| 0 <= k < end ==> spec_is_digit(src@[k]),
            end == len || !spec_is_digit(src@[end as int]),
        decreases len - end,
    {
        if end >= len {
            break;
        }
        let c = src.get_char(end);
        if !is_digit(c) {
            break;
        }
        end = end + 1;
    }
    proof {
        lemma_digit_run_of_boundary(src@, end as int);
    }
    let text = src.substring_char(0, end);
    let rest = src.substring_char(end, len);
    (Token::Number(text.to_owned()), rest)
}

} // verus!
