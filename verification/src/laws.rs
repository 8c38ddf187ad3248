//! Laws of the scanner, stated over its mathematical model and proved.

use vstd::prelude::*;

use crate::tokenizer::{
    TokenModel, digit_run_len, ident_run_len, lemma_digit_run_character,
    lemma_digit_run_of_boundary, lemma_ident_run_character, lemma_ident_run_of_boundary,
    spec_is_digit, spec_is_ident, spec_is_ident_first, spec_tokenize,
};

verus! {

/// The literal source text a token was derived from.
pub open spec fn token_text(t: TokenModel) -> Seq<char> {
    match t {
        TokenModel::OpenParens => seq!['('],
        TokenModel::CloseParens => seq![')'],
        TokenModel::Number(text) => text,
        TokenModel::Identifier(text) => text,
    }
}

/// A well-formed token: its text is exactly what one of the scanning
/// rules can produce. A number is a nonempty run of digits; an identifier
/// is a nonempty run of identifier-continue characters that starts with
/// an identifier-start character.
pub open spec fn token_wf(t: TokenModel) -> bool {
    match t {
        TokenModel::OpenParens => true,
        TokenModel::CloseParens => true,
        TokenModel::Number(text) => text.len() >= 1 && forall|k: int|
            0 <= k < text.len() ==> spec_is_digit(#[trigger] text[k]),
        TokenModel::Identifier(text) => text.len() >= 1 && spec_is_ident_first(text[0])
            && forall|k: int| 0 <= k < text.len() ==> spec_is_ident(#[trigger] text[k]),
    }
}

/// The literal texts of a token sequence, joined by single spaces.
pub open spec fn render(ts: Seq<TokenModel>) -> Seq<char>
    decreases ts.len(),
{
    if ts.len() == 0 {
        Seq::empty()
    } else if ts.len() == 1 {
        token_text(ts[0])
    } else {
        token_text(ts[0]) + seq![' '] + render(ts.skip(1))
    }
}

/// A character the scanner recognizes as the start of a step: a space, a
/// parenthesis, an identifier-continue character (which covers both
/// identifier-start characters and digits). Anything else ends the scan.
pub open spec fn spec_recognized(c: char) -> bool {
    c == ' ' || c == '(' || c == ')' || spec_is_ident(c)
}

/// An input consisting solely of ASCII decimal digits scans to exactly
/// one `Number` token whose text is the input verbatim, leading zeros
/// included. (The empty input scans to no tokens at all, so it stands
/// apart.)
pub proof fn lemma_all_digits_single_number(s: Seq<char>)
    requires
        s.len() > 0,
        forall|k: int| 0 <= k < s.len() ==> spec_is_digit(#[trigger] s[k]),
    ensures
        spec_tokenize(s) == seq![TokenModel::Number(s)],
{
    lemma_digit_run_of_boundary(s, s.len() as int);
    assert(s.take(digit_run_len(s) as int) =~= s);
    assert(s.skip(digit_run_len(s) as int) =~= Seq::<char>::empty());
    assert(spec_tokenize(Seq::<char>::empty()) == Seq::<TokenModel>::empty());
    assert(spec_tokenize(s) =~= seq![TokenModel::Number(s)]);
}

/// An input consisting solely of identifier-continue characters whose
/// first character is not a digit scans to exactly one `Identifier` token
/// whose text is the input verbatim. (The empty input scans to no tokens
/// at all, so it stands apart.)
pub proof fn lemma_all_ident_single_identifier(s: Seq<char>)
    requires
        s.len() > 0,
        !spec_is_digit(s[0]),
        forall|k: int| 0 <= k < s.len() ==> spec_is_ident(#[trigger] s[k]),
    ensures
        spec_tokenize(s) == seq![TokenModel::Identifier(s)],
{
    lemma_ident_run_of_boundary(s, s.len() as int);
    assert(s.take(ident_run_len(s) as int) =~= s);
    assert(s.skip(ident_run_len(s) as int) =~= Seq::<char>::empty());
    assert(spec_tokenize(Seq::<char>::empty()) == Seq::<TokenModel>::empty());
    assert(spec_tokenize(s) =~= seq![TokenModel::Identifier(s)]);
}

/// Every token the scan emits is well-formed. In particular the space
/// character is never emitted as a token and never appears in any token's
/// text: spaces between tokens are skipped, never merged into a token.
pub proof fn lemma_no_space_in_tokens(s: Seq<char>)
    ensures
        forall|i: int|
            0 <= i < spec_tokenize(s).len() ==> token_wf(#[trigger] spec_tokenize(s)[i]),
        forall|i: int, j: int|
            0 <= i < spec_tokenize(s).len() && 0 <= j < token_text(spec_tokenize(s)[i]).len()
                ==> #[trigger] token_text(spec_tokenize(s)[i])[j] != ' ',
    decreases s.len(),
{
    lemma_tokens_wf(s);
    assert forall|i: int, j: int|
        0 <= i < spec_tokenize(s).len() && 0 <= j < token_text(spec_tokenize(s)[i]).len()
            implies #[trigger] token_text(spec_tokenize(s)[i])[j] != ' ' by {
        let t = spec_tokenize(s)[i];
        assert(token_wf(t));
        match t {
            TokenModel::OpenParens => {},
            TokenModel::CloseParens => {},
            TokenModel::Number(text) => {
                assert(spec_is_digit(text[j]));
            },
            TokenModel::Identifier(text) => {
                assert(spec_is_ident(text[j]));
            },
        }
    }
}

/// Every token the scan emits is well-formed.
pub proof fn lemma_tokens_wf(s: Seq<char>)
    ensures
        forall|i: int|
            0 <= i < spec_tokenize(s).len() ==> token_wf(#[trigger] spec_tokenize(s)[i]),
    decreases s.len(),
{
    if s.len() == 0 {
    } else if s[0] == ' ' {
        lemma_tokens_wf(s.skip(1));
    } else if s[0] == '(' || s[0] == ')' {
        lemma_tokens_wf(s.skip(1));
        assert forall|i: int|
            0 <= i < spec_tokenize(s).len() implies token_wf(#[trigger] spec_tokenize(s)[i]) by {
            if i > 0 {
                assert(spec_tokenize(s)[i] == spec_tokenize(s.skip(1))[i - 1]);
            }
        }
    } else if spec_is_ident_first(s[0]) {
        let n = ident_run_len(s) as int;
        lemma_ident_run_character(s);
        lemma_tokens_wf(s.skip(n));
        assert(token_wf(TokenModel::Identifier(s.take(n)))) by {
            assert(s.take(n)[0] == s[0]);
            assert(forall|k: int| 0 <= k < n ==> s.take(n)[k] == #[trigger] s[k]);
        }
        assert forall|i: int|
            0 <= i < spec_tokenize(s).len() implies token_wf(#[trigger] spec_tokenize(s)[i]) by {
            if i > 0 {
                assert(spec_tokenize(s)[i] == spec_tokenize(s.skip(n))[i - 1]);
            }
        }
    } else if spec_is_digit(s[0]) {
        let n = digit_run_len(s) as int;
        lemma_digit_run_character(s);
        lemma_tokens_wf(s.skip(n));
        assert(token_wf(TokenModel::Number(s.take(n)))) by {
            assert(forall|k: int| 0 <= k < n ==> s.take(n)[k] == #[trigger] s[k]);
        }
        assert forall|i: int|
            0 <= i < spec_tokenize(s).len() implies token_wf(#[trigger] spec_tokenize(s)[i]) by {
            if i > 0 {
                assert(spec_tokenize(s)[i] == spec_tokenize(s.skip(n))[i - 1]);
            }
        }
    } else {
    }
}

/// Scanning one well-formed token's text, followed either by nothing or
/// by text that opens with a space, yields that token and then whatever
/// the rest scans to: the token is read back whole, neither split nor
/// merged into what follows.
proof fn lemma_tokenize_token_then(t: TokenModel, tail: Seq<char>)
    requires
        token_wf(t),
        tail.len() == 0 || tail[0] == ' ',
    ensures
        spec_tokenize(token_text(t) + tail) == seq![t] + spec_tokenize(tail),
{
    let s = token_text(t) + tail;
    match t {
        TokenModel::OpenParens => {
            assert(s[0] == '(');
            assert(s.skip(1) =~= tail);
        },
        TokenModel::CloseParens => {
            assert(s[0] == ')');
            assert(s.skip(1) =~= tail);
        },
        TokenModel::Number(x) => {
            assert(s[0] == x[0]);
            assert(forall|k: int| 0 <= k < x.len() ==> s[k] == #[trigger] x[k]);
            if x.len() < s.len() {
                assert(s[x.len() as int] == tail[0]);
            }
            lemma_digit_run_of_boundary(s, x.len() as int);
            assert(s.take(x.len() as int) =~= x);
            assert(s.skip(x.len() as int) =~= tail);
        },
        TokenModel::Identifier(x) => {
            assert(s[0] == x[0]);
            assert(forall|k: int| 0 <= k < x.len() ==> s[k] == #[trigger] x[k]);
            if x.len() < s.len() {
                assert(s[x.len() as int] == tail[0]);
            }
            lemma_ident_run_of_boundary(s, x.len() as int);
            assert(s.take(x.len() as int) =~= x);
            assert(s.skip(x.len() as int) =~= tail);
        },
    }
}

/// Scanning the rendering of any sequence of well-formed tokens yields
/// that sequence back.
pub proof fn lemma_tokenize_render(ts: Seq<TokenModel>)
    requires
        forall|i: int| 0 <= i < ts.len() ==> token_wf(#[trigger] ts[i]),
    ensures
        spec_tokenize(render(ts)) == ts,
    decreases ts.len(),
{
    if ts.len() == 0 {
        assert(spec_tokenize(render(ts)) =~= ts);
    } else if ts.len() == 1 {
        let t = ts[0];
        lemma_tokenize_token_then(t, Seq::empty());
        assert(token_text(t) + Seq::<char>::empty() =~= token_text(t));
        assert(spec_tokenize(Seq::<char>::empty()) == Seq::<TokenModel>::empty());
        assert(seq![t] + Seq::<TokenModel>::empty() =~= ts);
    } else {
        let t = ts[0];
        let tail = seq![' '] + render(ts.skip(1));
        assert(render(ts) =~= token_text(t) + tail);
        lemma_tokenize_token_then(t, tail);
        assert(tail.skip(1) =~= render(ts.skip(1)));
        assert forall|i: int| 0 <= i < ts.skip(1).len() implies token_wf(
            #[trigger] ts.skip(1)[i],
        ) by {
            assert(ts.skip(1)[i] == ts[i + 1]);
        }
        lemma_tokenize_render(ts.skip(1));
        assert(seq![t] + ts.skip(1) =~= ts);
    }
}

/// Re-scanning the literal texts of a scan's tokens, joined by single
/// spaces, yields the very same token sequence: the scan's structure
/// survives a round trip through its own output.
pub proof fn lemma_retokenize(s: Seq<char>)
    ensures
        spec_tokenize(render(spec_tokenize(s))) == spec_tokenize(s),
{
    lemma_tokens_wf(s);
    lemma_tokenize_render(spec_tokenize(s));
}

/// An unrecognized character ends the scan: whatever stands after it
/// never matters, so the tokens returned are exactly those found before
/// it, and none after.
pub proof fn lemma_early_termination(before: Seq<char>, c: char, after: Seq<char>)
    requires
        !spec_recognized(c),
    ensures
        spec_tokenize(before.push(c) + after) == spec_tokenize(before.push(c)),
    decreases before.len(),
{
    let s1 = before.push(c) + after;
    let s2 = before.push(c);
    assert(forall|k: int| 0 <= k < s2.len() ==> s1[k] == #[trigger] s2[k]);
    if before.len() == 0 {
        assert(s1[0] == c && s2[0] == c);
        assert(spec_tokenize(s1) =~= spec_tokenize(s2));
    } else {
        let h = before[0];
        assert(s1[0] == h && s2[0] == h);
        if h == ' ' || h == '(' || h == ')' {
            assert(s1.skip(1) =~= before.skip(1).push(c) + after);
            assert(s2.skip(1) =~= before.skip(1).push(c));
            lemma_early_termination(before.skip(1), c, after);
        } else if spec_is_ident_first(h) {
            let n = ident_run_len(s1) as int;
            lemma_ident_run_character(s1);
            if n > before.len() {
                assert(spec_is_ident(s1[before.len() as int]));
                assert(false);
            }
            assert(forall|k: int| 0 <= k < n ==> spec_is_ident(#[trigger] s2[k]));
            assert(!spec_is_ident(s1[n]));
            lemma_ident_run_of_boundary(s2, n);
            assert(s1.take(n) =~= s2.take(n));
            assert(s1.skip(n) =~= before.skip(n).push(c) + after);
            assert(s2.skip(n) =~= before.skip(n).push(c));
            lemma_early_termination(before.skip(n), c, after);
        } else if spec_is_digit(h) {
            let n = digit_run_len(s1) as int;
            lemma_digit_run_character(s1);
            if n > before.len() {
                assert(spec_is_digit(s1[before.len() as int]));
                assert(false);
            }
            assert(forall|k: int| 0 <= k < n ==> spec_is_digit(#[trigger] s2[k]));
            assert(!spec_is_digit(s1[n]));
            lemma_digit_run_of_boundary(s2, n);
            assert(s1.take(n) =~= s2.take(n));
            assert(s1.skip(n) =~= before.skip(n).push(c) + after);
            assert(s2.skip(n) =~= before.skip(n).push(c));
            lemma_early_termination(before.skip(n), c, after);
        } else {
            assert(spec_tokenize(s1) =~= spec_tokenize(s2));
        }
    }
}

} // verus!
