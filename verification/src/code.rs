//! Recognising function declarations, API commands and `async`/`await` in
//! source text, with comments and string literals masked out.

use vstd::prelude::*;
use crate::text::{is_white_space, is_whitespace};

verus! {

// ---------------------------------------------------------------- masking

pub open spec fn is_ascii_char(c: char) -> bool {
    (c as u32) < 128
}

/// The masked form of `t[i..]` in the given lexer state: comments and the
/// contents of string literals (quoted by `"`, `'` or a backtick) become
/// spaces, line breaks survive, and any non-ASCII character becomes a space.
/// `//` and `#` (unless followed by `[`) start a line comment; block comments
/// nest.  Each character maps to exactly one character.
pub open spec fn mask_from(t: Seq<char>, i: int, quote: Option<char>, line_comment: bool, depth: nat) -> Seq<char>
    decreases t.len() - i,
{
    if i < 0 || i >= t.len() {
        seq![]
    } else {
        let c = t[i];
        let next_is = |x: char| i + 1 < t.len() && t[i + 1] == x;
        if line_comment {
            if c == '\n' {
                seq![c] + mask_from(t, i + 1, quote, false, depth)
            } else if c == '\r' {
                seq![c] + mask_from(t, i + 1, quote, true, depth)
            } else {
                seq![' '] + mask_from(t, i + 1, quote, true, depth)
            }
        } else if depth > 0 {
            if c == '/' && next_is('*') {
                seq![' ', ' '] + mask_from(t, i + 2, quote, false, depth + 1)
            } else if c == '*' && next_is('/') {
                seq![' ', ' '] + mask_from(t, i + 2, quote, false, (depth - 1) as nat)
            } else if c == '\n' || c == '\r' {
                seq![c] + mask_from(t, i + 1, quote, false, depth)
            } else {
                seq![' '] + mask_from(t, i + 1, quote, false, depth)
            }
        } else if quote is Some {
            if c == '\\' {
                if i + 1 < t.len() {
                    let e = t[i + 1];
                    seq![' ', if e == '\n' || e == '\r' { e } else { ' ' }] + mask_from(
                        t,
                        i + 2,
                        quote,
                        false,
                        0,
                    )
                } else {
                    seq![' ']
                }
            } else if c == quote->0 {
                seq![' '] + mask_from(t, i + 1, None, false, 0)
            } else if c == '\n' || c == '\r' {
                seq![c] + mask_from(t, i + 1, quote, false, 0)
            } else {
                seq![' '] + mask_from(t, i + 1, quote, false, 0)
            }
        } else {
            if c == '/' && next_is('/') {
                seq![' ', ' '] + mask_from(t, i + 2, None, true, 0)
            } else if c == '/' && next_is('*') {
                seq![' ', ' '] + mask_from(t, i + 2, None, false, 1)
            } else if c == '#' && !next_is('[') {
                seq![' '] + mask_from(t, i + 1, None, true, 0)
            } else if c == '"' || c == '\'' || c == '`' {
                seq![' '] + mask_from(t, i + 1, Some(c), false, 0)
            } else if is_ascii_char(c) {
                seq![c] + mask_from(t, i + 1, None, false, 0)
            } else {
                seq![' '] + mask_from(t, i + 1, None, false, 0)
            }
        }
    }
}

pub open spec fn masked(t: Seq<char>) -> Seq<char> {
    mask_from(t, 0, None, false, 0)
}

pub proof fn lemma_mask_len(t: Seq<char>, i: int, quote: Option<char>, line_comment: bool, depth: nat)
    requires
        0 <= i <= t.len(),
    ensures
        mask_from(t, i, quote, line_comment, depth).len() == t.len() - i,
    decreases t.len() - i,
{
    if i < t.len() {
        let c = t[i];
        let next_is = |x: char| i + 1 < t.len() && t[i + 1] == x;
        if line_comment {
            lemma_mask_len(t, i + 1, quote, c != '\n', depth);
        } else if depth > 0 {
            if c == '/' && next_is('*') {
                lemma_mask_len(t, i + 2, quote, false, depth + 1);
            } else if c == '*' && next_is('/') {
                lemma_mask_len(t, i + 2, quote, false, (depth - 1) as nat);
            } else {
                lemma_mask_len(t, i + 1, quote, false, depth);
            }
        } else if quote is Some {
            if c == '\\' {
                if i + 1 < t.len() {
                    lemma_mask_len(t, i + 2, quote, false, 0);
                }
            } else if c == quote->0 {
                lemma_mask_len(t, i + 1, None, false, 0);
            } else {
                lemma_mask_len(t, i + 1, quote, false, 0);
            }
        } else {
            if c == '/' && next_is('/') {
                lemma_mask_len(t, i + 2, None, true, 0);
            } else if c == '/' && next_is('*') {
                lemma_mask_len(t, i + 2, None, false, 1);
            } else if c == '#' && !next_is('[') {
                lemma_mask_len(t, i + 1, None, true, 0);
            } else if c == '"' || c == '\'' || c == '`' {
                lemma_mask_len(t, i + 1, Some(c), false, 0);
            } else {
                lemma_mask_len(t, i + 1, None, false, 0);
            }
        }
    }
}

fn push2(out: &mut Vec<char>, a: char, b: char)
    ensures
        final(out)@ == old(out)@ + seq![a, b],
{
    out.push(a);
    out.push(b);
    assert(out@ =~= old(out)@ + seq![a, b]);
}

/// A masked character for a source character: the character itself or a
/// space, a line feed exactly where the source has one, and always ASCII.
pub open spec fn masks(m: char, c: char) -> bool {
    &&& m == c || m == ' '
    &&& (m == '\n') == (c == '\n')
    &&& is_ascii_char(m)
}

/// Each character of `r` masks the character of `t` at the same place,
/// counting from `i`.
pub open spec fn masks_from(r: Seq<char>, t: Seq<char>, i: int) -> bool {
    forall|k: int| 0 <= k < r.len() ==> masks(#[trigger] r[k], t[i + k])
}

proof fn lemma_masks_concat(a: Seq<char>, b: Seq<char>, t: Seq<char>, i: int)
    requires
        forall|k: int| 0 <= k < a.len() ==> masks(#[trigger] a[k], t[i + k]),
        masks_from(b, t, i + a.len()),
    ensures
        masks_from(a + b, t, i),
{
    assert forall|k: int| 0 <= k < (a + b).len() implies masks(#[trigger] (a + b)[k], t[i + k]) by {
        if k < a.len() {
            assert((a + b)[k] == a[k]);
        } else {
            assert((a + b)[k] == b[k - a.len()]);
            assert(masks(b[k - a.len()], t[i + a.len() + (k - a.len())]));
        }
    }
}

/// Masking keeps each character or makes it a space, character by
/// character.
pub proof fn lemma_mask_chars(t: Seq<char>, i: int, quote: Option<char>, line_comment: bool, depth: nat)
    requires
        0 <= i <= t.len(),
        quote != Some('\n'),
    ensures
        masks_from(mask_from(t, i, quote, line_comment, depth), t, i),
    decreases t.len() - i,
{
    if i < t.len() {
        let c = t[i];
        let next_is = |x: char| i + 1 < t.len() && t[i + 1] == x;
        let r = mask_from(t, i, quote, line_comment, depth);
        if line_comment {
            let q = c != '\n';
            lemma_mask_chars(t, i + 1, quote, q, depth);
            let a = if c == '\n' || c == '\r' { seq![c] } else { seq![' '] };
            assert(r == a + mask_from(t, i + 1, quote, q, depth));
            lemma_masks_concat(a, mask_from(t, i + 1, quote, q, depth), t, i);
        } else if depth > 0 {
            if c == '/' && next_is('*') {
                lemma_mask_chars(t, i + 2, quote, false, depth + 1);
                lemma_masks_concat(seq![' ', ' '], mask_from(t, i + 2, quote, false, depth + 1), t, i);
            } else if c == '*' && next_is('/') {
                lemma_mask_chars(t, i + 2, quote, false, (depth - 1) as nat);
                lemma_masks_concat(
                    seq![' ', ' '],
                    mask_from(t, i + 2, quote, false, (depth - 1) as nat),
                    t,
                    i,
                );
            } else {
                lemma_mask_chars(t, i + 1, quote, false, depth);
                let a = if c == '\n' || c == '\r' { seq![c] } else { seq![' '] };
                lemma_masks_concat(a, mask_from(t, i + 1, quote, false, depth), t, i);
            }
        } else if quote is Some {
            if c == '\\' {
                if i + 1 < t.len() {
                    let e = t[i + 1];
                    lemma_mask_chars(t, i + 2, quote, false, 0);
                    let a = seq![' ', if e == '\n' || e == '\r' { e } else { ' ' }];
                    lemma_masks_concat(a, mask_from(t, i + 2, quote, false, 0), t, i);
                } else {
                    assert(masks(r[0], t[i]));
                }
            } else if c == quote->0 {
                lemma_mask_chars(t, i + 1, None, false, 0);
                lemma_masks_concat(seq![' '], mask_from(t, i + 1, None, false, 0), t, i);
            } else {
                lemma_mask_chars(t, i + 1, quote, false, 0);
                let a = if c == '\n' || c == '\r' { seq![c] } else { seq![' '] };
                lemma_masks_concat(a, mask_from(t, i + 1, quote, false, 0), t, i);
            }
        } else {
            if c == '/' && next_is('/') {
                lemma_mask_chars(t, i + 2, None, true, 0);
                lemma_masks_concat(seq![' ', ' '], mask_from(t, i + 2, None, true, 0), t, i);
            } else if c == '/' && next_is('*') {
                lemma_mask_chars(t, i + 2, None, false, 1);
                lemma_masks_concat(seq![' ', ' '], mask_from(t, i + 2, None, false, 1), t, i);
            } else if c == '#' && !next_is('[') {
                lemma_mask_chars(t, i + 1, None, true, 0);
                lemma_masks_concat(seq![' '], mask_from(t, i + 1, None, true, 0), t, i);
            } else if c == '"' || c == '\'' || c == '`' {
                lemma_mask_chars(t, i + 1, Some(c), false, 0);
                lemma_masks_concat(seq![' '], mask_from(t, i + 1, Some(c), false, 0), t, i);
            } else {
                lemma_mask_chars(t, i + 1, None, false, 0);
                let a = if is_ascii_char(c) { seq![c] } else { seq![' '] };
                lemma_masks_concat(a, mask_from(t, i + 1, None, false, 0), t, i);
            }
        }
    }
}

/// Masks comments and string contents (see [`mask_from`]).
pub fn mask_non_code(t: &Vec<char>) -> (r: Vec<char>)
    ensures
        r@ == masked(t@),
        r@.len() == t@.len(),
        masks_from(r@, t@, 0),
{
    proof {
        lemma_mask_len(t@, 0, None, false, 0);
        lemma_mask_chars(t@, 0, None, false, 0);
    }
    let mut out: Vec<char> = Vec::new();
    let mut quote: Option<char> = None;
    let mut line_comment = false;
    let mut depth: usize = 0;
    let mut i: usize = 0;
    let n = t.len();
    while i < n
        invariant
            n == t@.len(),
            i <= n,
            depth <= i,
            masked(t@).len() == n,
            masks_from(masked(t@), t@, 0),
            out@ + mask_from(t@, i as int, quote, line_comment, depth as nat) == masked(t@),
        decreases n - i,
    {
        let c = t[i];
        let next = if i + 1 < n {
            Some(t[i + 1])
        } else {
            None
        };
        let ghost before = out@;
        if line_comment {
            if c == '\n' {
                line_comment = false;
                out.push(c);
            } else if c == '\r' {
                out.push(c);
            } else {
                out.push(' ');
            }
            i += 1;
        } else if depth > 0 {
            if c == '/' && next == Some('*') {
                push2(&mut out, ' ', ' ');
                depth += 1;
                i += 2;
            } else if c == '*' && next == Some('/') {
                push2(&mut out, ' ', ' ');
                depth -= 1;
                i += 2;
            } else if c == '\n' || c == '\r' {
                out.push(c);
                i += 1;
            } else {
                out.push(' ');
                i += 1;
            }
        } else if quote.is_some() {
            if c == '\\' {
                match next {
                    Some(e) => {
                        if e == '\n' || e == '\r' {
                            push2(&mut out, ' ', e);
                        } else {
                            push2(&mut out, ' ', ' ');
                        }
                        i += 2;
                    },
                    None => {
                        out.push(' ');
                        i += 1;
                        proof {
                            assert(out@ == masked(t@));
                        }
                        return out;
                    },
                }
            } else if Some(c) == quote {
                out.push(' ');
                quote = None;
                i += 1;
            } else if c == '\n' || c == '\r' {
                out.push(c);
                i += 1;
            } else {
                out.push(' ');
                i += 1;
            }
        } else {
            if c == '/' && next == Some('/') {
                push2(&mut out, ' ', ' ');
                line_comment = true;
                i += 2;
            } else if c == '/' && next == Some('*') {
                push2(&mut out, ' ', ' ');
                depth = 1;
                i += 2;
            } else if c == '#' && next != Some('[') {
                out.push(' ');
                line_comment = true;
                i += 1;
            } else if c == '"' || c == '\'' || c == '`' {
                out.push(' ');
                quote = Some(c);
                i += 1;
            } else if (c as u32) < 128 {
                out.push(c);
                i += 1;
            } else {
                out.push(' ');
                i += 1;
            }
        }
        assert(out@ + mask_from(t@, i as int, quote, line_comment, depth as nat) =~= masked(t@));
    }
    proof {
        assert(out@ + mask_from(t@, i as int, quote, line_comment, depth as nat) =~= out@);
    }
    out
}

// ---------------------------------------------------------------- tokens

pub open spec fn is_ident_start(c: char) -> bool {
    ('a' <= c && c <= 'z') || ('A' <= c && c <= 'Z') || c == '_' || c == '$'
}

pub open spec fn is_ident_char(c: char) -> bool {
    is_ident_start(c) || ('0' <= c && c <= '9')
}

fn ident_start(c: char) -> (b: bool)
    ensures
        b == is_ident_start(c),
{
    ('a' <= c && c <= 'z') || ('A' <= c && c <= 'Z') || c == '_' || c == '$'
}

fn ident_char(c: char) -> (b: bool)
    ensures
        b == is_ident_char(c),
{
    ident_start(c) || ('0' <= c && c <= '9')
}

/// The tokens of `t[i..]` as (start, end) positions: maximal runs of
/// identifier characters that start with a letter, `_` or `$`, and every
/// other non-whitespace character on its own.  `ident` holds the start of
/// an identifier being read.
pub open spec fn lex_from(t: Seq<char>, i: int, ident: Option<int>) -> Seq<(int, int)>
    decreases t.len() - i, if ident is Some {
        1int
    } else {
        0int
    },
{
    match ident {
        Some(s) => if 0 <= i < t.len() && is_ident_char(t[i]) {
            lex_from(t, i + 1, Some(s))
        } else {
            seq![(s, i)] + lex_from(t, i, None)
        },
        None => if i < 0 || i >= t.len() {
            seq![]
        } else if is_ident_start(t[i]) {
            lex_from(t, i + 1, Some(i))
        } else if !is_white_space(t[i]) {
            seq![(i, i + 1)] + lex_from(t, i + 1, None)
        } else {
            lex_from(t, i + 1, None)
        },
    }
}

pub open spec fn lex(t: Seq<char>) -> Seq<(int, int)> {
    lex_from(t, 0, None)
}

pub open spec fn tok_view(v: Seq<(usize, usize)>) -> Seq<(int, int)> {
    v.map_values(|p: (usize, usize)| (p.0 as int, p.1 as int))
}

/// Tokens lie inside the text, in order, without overlapping.
pub open spec fn tokens_wf(v: Seq<(usize, usize)>, n: int) -> bool {
    &&& forall|k: int| 0 <= k < v.len() ==> (#[trigger] v[k]).0 < v[k].1 <= n
    &&& forall|a: int, b: int| 0 <= a < b < v.len() ==> (#[trigger] v[a]).1 <= (#[trigger] v[b]).0
}

/// The text of each token.
pub open spec fn texts(t: Seq<char>, toks: Seq<(int, int)>) -> Seq<Seq<char>> {
    toks.map_values(|p: (int, int)| t.subrange(p.0, p.1))
}

/// Splits text into tokens (see [`lex_from`]).
pub fn lex_tokens(t: &[char]) -> (r: Vec<(usize, usize)>)
    ensures
        tok_view(r@) == lex(t@),
        tokens_wf(r@, t@.len() as int),
{
    let n = t.len();
    let mut toks: Vec<(usize, usize)> = Vec::new();
    let mut i: usize = 0;
    while i < n
        invariant
            n == t@.len(),
            i <= n,
            tok_view(toks@) + lex_from(t@, i as int, None) == lex(t@),
            forall|k: int| 0 <= k < toks@.len() ==> (#[trigger] toks@[k]).0 < toks@[k].1 <= i,
            forall|a: int, b: int| 0 <= a < b < toks@.len() ==> (#[trigger] toks@[a]).1 <= (#[trigger] toks@[b]).0,
        decreases n - i,
    {
        let c = t[i];
        let ghost before = toks@;
        if ident_start(c) {
            let s = i;
            i += 1;
            while i < n && ident_char(t[i])
                invariant
                    n == t@.len(),
                    s < i <= n,
                    lex_from(t@, s + 1, Some(s as int)) == lex_from(t@, i as int, Some(s as int)),
                decreases n - i,
            {
                i += 1;
            }
            toks.push((s, i));
            assert(tok_view(toks@) =~= tok_view(before).push((s as int, i as int)));
        } else if !is_whitespace(c) {
            toks.push((i, i + 1));
            assert(tok_view(toks@) =~= tok_view(before).push((i as int, i + 1)));
            i += 1;
        } else {
            i += 1;
        }
    }
    toks
}

/// Tests whether a token's text is `word`.
fn tok_is(t: &[char], tok: (usize, usize), word: &str) -> (r: bool)
    requires
        tok.0 <= tok.1 <= t@.len(),
    ensures
        r == (t@.subrange(tok.0 as int, tok.1 as int) == word@),
{
    let w = crate::text::to_chars(word);
    if tok.1 - tok.0 != w.len() {
        return false;
    }
    let mut k: usize = 0;
    while k < w.len()
        invariant
            tok.0 <= tok.1 <= t@.len(),
            tok.1 - tok.0 == w@.len(),
            w@ == word@,
            k <= w@.len(),
            forall|j: int| 0 <= j < k ==> t@[tok.0 + j] == w@[j],
        decreases w@.len() - k,
    {
        if t[tok.0 + k] != w[k] {
            assert(t@.subrange(tok.0 as int, tok.1 as int)[k as int] != w@[k as int]);
            assert(t@.subrange(tok.0 as int, tok.1 as int) != w@);
            return false;
        }
        k += 1;
    }
    assert(t@.subrange(tok.0 as int, tok.1 as int) =~= w@);
    true
}

// ---------------------------------------------------------------- declarations

/// The token texts of a `#[tauri::command]` attribute.
pub open spec fn tauri_attr() -> Seq<Seq<char>> {
    seq!["#"@, "["@, "tauri"@, ":"@, ":"@, "command"@, "]"@]
}

pub open spec fn is_modifier(w: Seq<char>) -> bool {
    w == "pub"@ || w == "public"@ || w == "export"@ || w == "async"@ || w == "unsafe"@
}

/// A line prefix is structural when it holds only modifiers and
/// `#[tauri::command]` attributes.
pub open spec fn structural(w: Seq<Seq<char>>) -> bool
    decreases w.len(),
{
    if w.len() == 0 {
        true
    } else if is_modifier(w[0]) {
        structural(w.drop_first())
    } else if w.len() >= 7 && w.take(7) == tauri_attr() {
        structural(w.skip(7))
    } else {
        false
    }
}

/// The start of the line that holds position `p`.
pub open spec fn line_start(m: Seq<char>, p: int) -> int
    decreases p,
{
    if p <= 0 {
        0
    } else if m[p - 1] == '\n' {
        p
    } else {
        line_start(m, p - 1)
    }
}

/// Whatever stands before position `p` on its line is structural.
pub open spec fn prefix_structural(m: Seq<char>, p: int) -> bool {
    let s = m.subrange(line_start(m, p), p);
    structural(texts(s, lex(s)))
}

pub open spec fn is_visibility(w: Seq<char>) -> bool {
    w == "pub"@ || w == "public"@ || w == "export"@
}

/// The start of the run of `async`/visibility words that ends before `i`.
pub open spec fn qualifier_start(w: Seq<Seq<char>>, i: int) -> int
    decreases i,
{
    if i > 0 && (w[i - 1] == "async"@ || is_visibility(w[i - 1])) {
        qualifier_start(w, i - 1)
    } else {
        i
    }
}

/// A declaration is a directly exposed API: a `#[tauri::command]` attribute
/// precedes it, with at most `async` and visibility words in between.
pub open spec fn directly_qualified(w: Seq<Seq<char>>, d: int) -> bool {
    let q = qualifier_start(w, d);
    q >= 7 && w.subrange(q - 7, q) == tauri_attr()
}

/// The position of the token that closes the bracket opened at or after `i`,
/// `depth` brackets being open before `i`.
pub open spec fn matching_from(w: Seq<Seq<char>>, i: int, depth: int, open: Seq<char>, close: Seq<char>) -> Option<int>
    decreases w.len() - i,
{
    if i < 0 || i >= w.len() {
        None
    } else if w[i] == open {
        matching_from(w, i + 1, depth + 1, open, close)
    } else if w[i] == close {
        if depth - 1 == 0 {
            Some(i)
        } else {
            matching_from(w, i + 1, depth - 1, open, close)
        }
    } else {
        matching_from(w, i + 1, depth, open, close)
    }
}

pub open spec fn is_identifier(s: Seq<char>) -> bool {
    s.len() > 0 && is_ident_start(s[0]) && forall|k: int| 1 <= k < s.len() ==> is_ident_char(#[trigger] s[k])
}

pub open spec fn all_white(s: Seq<char>) -> bool {
    forall|k: int| 0 <= k < s.len() ==> is_white_space(#[trigger] s[k])
}

/// Where the declaration whose signature ends before token `start` has its
/// body, looking from token `index`: the first `{` opens a block body (only
/// whitespace may separate it from the signature, and it needs its closing
/// brace), the first `;` ends a bodiless declaration or, for an arrow
/// function, an expression body (on the signature's line), and a `}` first
/// means no declaration.
pub open spec fn boundary_from(
    t: Seq<char>,
    w: Seq<Seq<char>>,
    toks: Seq<(int, int)>,
    start: int,
    index: int,
    expression_body: bool,
) -> Option<(Option<int>, Option<int>)>
    decreases w.len() - index,
{
    if index < 0 || index >= w.len() {
        None
    } else if w[index] == "{"@ {
        if start > 0 && !all_white(t.subrange(toks[start - 1].1, toks[index].0)) {
            None
        } else {
            match matching_from(w, index, 0, "{"@, "}"@) {
                Some(close) => Some((Some(index + 1), Some(close))),
                None => None,
            }
        }
    } else if w[index] == ";"@ {
        if start > 0 && t.subrange(toks[start - 1].0, toks[index].0).contains('\n') {
            None
        } else if expression_body {
            Some((Some(start), Some(index)))
        } else {
            Some((None, None))
        }
    } else if w[index] == "}"@ {
        None
    } else {
        boundary_from(t, w, toks, start, index + 1, expression_body)
    }
}

pub open spec fn is_function_word(w: Seq<char>) -> bool {
    w == "fn"@ || w == "function"@ || w == "def"@ || w == "func"@ || w == "fun"@
}

pub open spec fn is_binding_word(w: Seq<char>) -> bool {
    w == "const"@ || w == "let"@ || w == "var"@
}

/// `fn name(` and its relatives.
pub open spec fn function_like(w: Seq<Seq<char>>, i: int) -> bool {
    &&& 0 <= i
    &&& i + 2 < w.len()
    &&& is_function_word(w[i])
    &&& is_identifier(w[i + 1])
    &&& w[i + 2] == "("@
}

/// `const name = (` or `const name = async`.
pub open spec fn arrow_like(w: Seq<Seq<char>>, i: int) -> bool {
    &&& 0 <= i
    &&& i + 3 < w.len()
    &&& is_binding_word(w[i])
    &&& is_identifier(w[i + 1])
    &&& w[i + 2] == "="@
    &&& (w[i + 3] == "("@ || w[i + 3] == "async"@)
}

pub open spec fn body_of(b: (Option<int>, Option<int>)) -> Option<(int, int)> {
    match b {
        (Some(s), Some(e)) => Some((s, e)),
        _ => None,
    }
}

/// The declaration that token `i` starts, if any: whether it is async, its
/// body's token range when it has one, and whether it is directly exposed.
pub open spec fn declaration_at(t: Seq<char>, m: Seq<char>, toks: Seq<(int, int)>, i: int) -> Option<
    (bool, Option<(int, int)>, bool),
> {
    let w = texts(m, toks);
    if function_like(w, i) && prefix_structural(m, toks[i].0) {
        match matching_from(w, i + 2, 0, "("@, ")"@) {
            None => None,
            Some(close) => {
                let b = if w[i] == "def"@ {
                    if close + 1 < w.len() && w[close + 1] == ":"@ {
                        Some((None::<int>, None::<int>))
                    } else {
                        None
                    }
                } else {
                    boundary_from(t, w, toks, close + 1, close + 1, false)
                };
                match b {
                    None => None,
                    Some(bb) => Some(
                        (i > 0 && w[i - 1] == "async"@, body_of(bb), directly_qualified(w, i)),
                    ),
                }
            },
        }
    } else if arrow_like(w, i) && prefix_structural(m, toks[i].0) {
        let is_async = w[i + 3] == "async"@;
        let opening = if is_async {
            i + 4
        } else {
            i + 3
        };
        if opening >= w.len() || w[opening] != "("@ {
            None
        } else {
            match matching_from(w, opening, 0, "("@, ")"@) {
                None => None,
                Some(close) => if close + 2 >= w.len() || w[close + 1] != "="@ || w[close + 2]
                    != ">"@ {
                    None
                } else {
                    match boundary_from(t, w, toks, close + 3, close + 3, true) {
                        None => None,
                        Some(bb) => Some((is_async, body_of(bb), directly_qualified(w, i))),
                    }
                },
            }
        }
    } else {
        None
    }
}

/// A standalone `await` (not `.await`) among the tokens `[s, e)`.
pub open spec fn has_await(w: Seq<Seq<char>>, s: int, e: int) -> bool {
    exists|o: int| s <= o < e && #[trigger] w[o] == "await"@ && (o == s || w[o - 1] != "."@)
}

/// The code features of `t`, read from its masked tokens.
pub open spec fn declared(t: Seq<char>, i: int) -> Option<(bool, Option<(int, int)>, bool)> {
    declaration_at(t, masked(t), lex(masked(t)), i)
}

pub open spec fn spec_functions(t: Seq<char>) -> bool {
    exists|i: int| 0 <= i < lex(masked(t)).len() && #[trigger] declared(t, i) is Some
}

pub open spec fn spec_api(t: Seq<char>) -> bool {
    exists|i: int| 0 <= i < lex(masked(t)).len() && #[trigger] declared(t, i) is Some && (declared(t, i)->0).2
}

pub open spec fn spec_async_await(t: Seq<char>) -> bool {
    exists|i: int|
        0 <= i < lex(masked(t)).len() && #[trigger] declared(t, i) is Some && (declared(t, i)->0).0
            && (declared(t, i)->0).1 is Some && has_await(
            texts(masked(t), lex(masked(t))),
            ((declared(t, i)->0).1->0).0,
            ((declared(t, i)->0).1->0).1,
        )
}

// ---------------------------------------------------------------- recognition

fn word_is(m: &[char], toks: &Vec<(usize, usize)>, k: usize, word: &str) -> (r: bool)
    requires
        k < toks@.len(),
        tokens_wf(toks@, m@.len() as int),
    ensures
        r == (texts(m@, tok_view(toks@))[k as int] == word@),
{
    tok_is(m, toks[k], word)
}

fn is_modifier_at(m: &[char], toks: &Vec<(usize, usize)>, k: usize) -> (r: bool)
    requires
        k < toks@.len(),
        tokens_wf(toks@, m@.len() as int),
    ensures
        r == is_modifier(texts(m@, tok_view(toks@))[k as int]),
{
    word_is(m, toks, k, "pub") || word_is(m, toks, k, "public") || word_is(m, toks, k, "export")
        || word_is(m, toks, k, "async") || word_is(m, toks, k, "unsafe")
}

fn is_visibility_at(m: &[char], toks: &Vec<(usize, usize)>, k: usize) -> (r: bool)
    requires
        k < toks@.len(),
        tokens_wf(toks@, m@.len() as int),
    ensures
        r == is_visibility(texts(m@, tok_view(toks@))[k as int]),
{
    word_is(m, toks, k, "pub") || word_is(m, toks, k, "public") || word_is(m, toks, k, "export")
}

fn attr_at(m: &[char], toks: &Vec<(usize, usize)>, k: usize) -> (r: bool)
    requires
        k + 7 <= toks@.len(),
        tokens_wf(toks@, m@.len() as int),
    ensures
        r == (texts(m@, tok_view(toks@)).subrange(k as int, k + 7) == tauri_attr()),
{
    let ghost w = texts(m@, tok_view(toks@));
    let n = toks.len();
    assert(k + 7 <= n);
    let k1 = k + 1;
    let k2 = k + 2;
    let k3 = k + 3;
    let k4 = k + 4;
    let k5 = k + 5;
    let k6 = k + 6;
    let r = word_is(m, toks, k, "#") && word_is(m, toks, k1, "[") && word_is(m, toks, k2, "tauri")
        && word_is(m, toks, k3, ":") && word_is(m, toks, k4, ":") && word_is(m, toks, k5, "command")
        && word_is(m, toks, k6, "]");
    proof {
        let sub = w.subrange(k as int, k + 7);
        if r {
            assert(sub =~= tauri_attr());
        } else {
            if sub == tauri_attr() {
                assert(sub[0] == w[k as int]);
                assert(sub[1] == w[k + 1]);
                assert(sub[2] == w[k + 2]);
                assert(sub[3] == w[k + 3]);
                assert(sub[4] == w[k + 4]);
                assert(sub[5] == w[k + 5]);
                assert(sub[6] == w[k + 6]);
            }
        }
    }
    r
}

fn structural_tokens(m: &[char], toks: &Vec<(usize, usize)>) -> (r: bool)
    requires
        tokens_wf(toks@, m@.len() as int),
    ensures
        r == structural(texts(m@, tok_view(toks@))),
{
    let ghost w = texts(m@, tok_view(toks@));
    let mut index: usize = 0;
    assert(w.skip(0) =~= w);
    while index < toks.len()
        invariant
            index <= toks@.len(),
            tokens_wf(toks@, m@.len() as int),
            w == texts(m@, tok_view(toks@)),
            structural(w) == structural(w.skip(index as int)),
        decreases toks@.len() - index,
    {
        let ghost rest = w.skip(index as int);
        if is_modifier_at(m, toks, index) {
            assert(rest.drop_first() =~= w.skip(index + 1));
            index += 1;
        } else if toks.len() - index >= 7 && attr_at(m, toks, index) {
            assert(rest.take(7) =~= w.subrange(index as int, index + 7));
            assert(rest.skip(7) =~= w.skip(index + 7));
            index += 7;
        } else {
            proof {
                if rest.len() >= 7 {
                    assert(rest.take(7) =~= w.subrange(index as int, index + 7));
                }
            }
            return false;
        }
    }
    assert(w.skip(index as int).len() == 0);
    true
}

fn copy_chars(c: &[char], start: usize, end: usize) -> (r: Vec<char>)
    requires
        start <= end <= c@.len(),
    ensures
        r@ == c@.subrange(start as int, end as int),
{
    let mut r: Vec<char> = Vec::new();
    let mut i = start;
    while i < end
        invariant
            start <= i <= end,
            end <= c@.len(),
            r@ == c@.subrange(start as int, i as int),
        decreases end - i,
    {
        r.push(c[i]);
        i += 1;
        assert(r@ =~= c@.subrange(start as int, i as int));
    }
    r
}

fn prefix_is_structural(m: &[char], p: usize) -> (r: bool)
    requires
        p <= m@.len(),
    ensures
        r == prefix_structural(m@, p as int),
{
    let mut q = p;
    while q > 0 && m[q - 1] != '\n'
        invariant
            q <= p <= m@.len(),
            line_start(m@, p as int) == line_start(m@, q as int),
        decreases q,
    {
        q -= 1;
    }
    let sub = copy_chars(m, q, p);
    let toks = lex_tokens(&sub);
    structural_tokens(&sub, &toks)
}

fn find_matching(m: &[char], toks: &Vec<(usize, usize)>, opening: usize, open: &str, close: &str) -> (r:
    Option<usize>)
    requires
        tokens_wf(toks@, m@.len() as int),
    ensures
        match r {
            Some(j) => matching_from(texts(m@, tok_view(toks@)), opening as int, 0, open@, close@)
                == Some(j as int) && j < toks@.len(),
            None => matching_from(texts(m@, tok_view(toks@)), opening as int, 0, open@, close@)
                is None,
        },
{
    let ghost w = texts(m@, tok_view(toks@));
    let mut opens: usize = 0;
    let mut closes: usize = 0;
    let mut i = opening;
    while i < toks.len()
        invariant
            opening <= i,
            opens + closes <= i - opening,
            tokens_wf(toks@, m@.len() as int),
            w == texts(m@, tok_view(toks@)),
            matching_from(w, opening as int, 0, open@, close@) == matching_from(
                w,
                i as int,
                opens - closes,
                open@,
                close@,
            ),
        decreases toks@.len() - i,
    {
        if word_is(m, toks, i, open) {
            opens += 1;
        } else if word_is(m, toks, i, close) {
            if opens == closes + 1 {
                return Some(i);
            }
            closes += 1;
        }
        i += 1;
    }
    None
}

fn token_is_identifier(m: &[char], tok: (usize, usize)) -> (r: bool)
    requires
        tok.0 <= tok.1 <= m@.len(),
    ensures
        r == is_identifier(m@.subrange(tok.0 as int, tok.1 as int)),
{
    let ghost s = m@.subrange(tok.0 as int, tok.1 as int);
    if tok.0 == tok.1 {
        return false;
    }
    if !ident_start(m[tok.0]) {
        return false;
    }
    let mut k = tok.0 + 1;
    while k < tok.1
        invariant
            tok.0 < k <= tok.1 <= m@.len(),
            s == m@.subrange(tok.0 as int, tok.1 as int),
            forall|j: int| 1 <= j < k - tok.0 ==> is_ident_char(#[trigger] s[j]),
        decreases tok.1 - k,
    {
        if !ident_char(m[k]) {
            assert(!is_ident_char(s[k - tok.0]));
            return false;
        }
        k += 1;
    }
    true
}

fn all_white_range(t: &[char], a: usize, b: usize) -> (r: bool)
    requires
        a <= b <= t@.len(),
    ensures
        r == all_white(t@.subrange(a as int, b as int)),
{
    let mut k = a;
    while k < b
        invariant
            a <= k <= b <= t@.len(),
            forall|j: int| a <= j < k ==> is_white_space(#[trigger] t@[j]),
        decreases b - k,
    {
        if !is_whitespace(t[k]) {
            assert(!is_white_space(t@.subrange(a as int, b as int)[k - a]));
            return false;
        }
        k += 1;
    }
    assert forall|j: int| 0 <= j < b - a implies is_white_space(
        #[trigger] t@.subrange(a as int, b as int)[j],
    ) by {
        assert(t@.subrange(a as int, b as int)[j] == t@[a + j]);
    }
    true
}

fn newline_in_range(t: &[char], a: usize, b: usize) -> (r: bool)
    requires
        a <= b <= t@.len(),
    ensures
        r == t@.subrange(a as int, b as int).contains('\n'),
{
    let mut k = a;
    while k < b
        invariant
            a <= k <= b <= t@.len(),
            forall|j: int| a <= j < k ==> t@[j] != '\n',
        decreases b - k,
    {
        if t[k] == '\n' {
            assert(t@.subrange(a as int, b as int)[k - a] == '\n');
            return true;
        }
        k += 1;
    }
    assert forall|j: int| 0 <= j < b - a implies #[trigger] t@.subrange(a as int, b as int)[j]
        != '\n' by {
        assert(t@.subrange(a as int, b as int)[j] == t@[a + j]);
    }
    false
}

pub open spec fn opt_pair_view(o: Option<usize>) -> Option<int> {
    match o {
        Some(x) => Some(x as int),
        None => None,
    }
}

pub open spec fn boundary_view(r: Option<(Option<usize>, Option<usize>)>) -> Option<(Option<int>, Option<int>)> {
    match r {
        Some((a, b)) => Some((opt_pair_view(a), opt_pair_view(b))),
        None => None,
    }
}

fn declaration_boundary(
    t: &[char],
    m: &[char],
    toks: &Vec<(usize, usize)>,
    start: usize,
    expression_body: bool,
) -> (r: Option<(Option<usize>, Option<usize>)>)
    requires
        tokens_wf(toks@, m@.len() as int),
        t@.len() == m@.len(),
    ensures
        boundary_view(r) == boundary_from(
            t@,
            texts(m@, tok_view(toks@)),
            tok_view(toks@),
            start as int,
            start as int,
            expression_body,
        ),
        r matches Some((_, Some(e))) ==> e < toks@.len(),
{
    let ghost w = texts(m@, tok_view(toks@));
    let ghost tv = tok_view(toks@);
    let mut index = start;
    while index < toks.len()
        invariant
            start <= index,
            tokens_wf(toks@, m@.len() as int),
            t@.len() == m@.len(),
            w == texts(m@, tok_view(toks@)),
            tv == tok_view(toks@),
            boundary_from(t@, w, tv, start as int, start as int, expression_body) == boundary_from(
                t@,
                w,
                tv,
                start as int,
                index as int,
                expression_body,
            ),
        decreases toks@.len() - index,
    {
        if word_is(m, toks, index, "{") {
            if start > 0 {
                let prev = toks[start - 1];
                let here = toks[index];
                if start - 1 < index {
                    assert(toks@[start - 1].1 <= toks@[index as int].0);
                }
                if !all_white_range(t, prev.1, here.0) {
                    return None;
                }
            }
            match find_matching(m, toks, index, "{", "}") {
                Some(c) => {
                    return Some((Some(index + 1), Some(c)));
                },
                None => {
                    return None;
                },
            }
        } else if word_is(m, toks, index, ";") {
            if start > 0 {
                let prev = toks[start - 1];
                let here = toks[index];
                if start - 1 < index {
                    assert(toks@[start - 1].1 <= toks@[index as int].0);
                }
                if newline_in_range(t, prev.0, here.0) {
                    return None;
                }
            }
            if expression_body {
                return Some((Some(start), Some(index)));
            } else {
                return Some((None, None));
            }
        } else if word_is(m, toks, index, "}") {
            return None;
        }
        index += 1;
    }
    None
}

fn qualified(m: &[char], toks: &Vec<(usize, usize)>, d: usize) -> (r: bool)
    requires
        d < toks@.len(),
        tokens_wf(toks@, m@.len() as int),
    ensures
        r == directly_qualified(texts(m@, tok_view(toks@)), d as int),
{
    let ghost w = texts(m@, tok_view(toks@));
    let mut q = d;
    while q > 0 && (word_is(m, toks, q - 1, "async") || is_visibility_at(m, toks, q - 1))
        invariant
            q <= d < toks@.len(),
            tokens_wf(toks@, m@.len() as int),
            w == texts(m@, tok_view(toks@)),
            qualifier_start(w, d as int) == qualifier_start(w, q as int),
        decreases q,
    {
        q -= 1;
    }
    proof {
        if q > 0 {
            assert(qualifier_start(w, q as int) == q);
        }
    }
    q >= 7 && attr_at(m, toks, q - 7)
}

fn function_like_at(m: &[char], toks: &Vec<(usize, usize)>, i: usize) -> (r: bool)
    requires
        tokens_wf(toks@, m@.len() as int),
    ensures
        r == function_like(texts(m@, tok_view(toks@)), i as int),
{
    if i >= toks.len() || toks.len() - i <= 2 {
        return false;
    }
    (word_is(m, toks, i, "fn") || word_is(m, toks, i, "function") || word_is(m, toks, i, "def")
        || word_is(m, toks, i, "func") || word_is(m, toks, i, "fun")) && token_is_identifier(
        m,
        toks[i + 1],
    ) && word_is(m, toks, i + 2, "(")
}

fn arrow_like_at(m: &[char], toks: &Vec<(usize, usize)>, i: usize) -> (r: bool)
    requires
        tokens_wf(toks@, m@.len() as int),
    ensures
        r == arrow_like(texts(m@, tok_view(toks@)), i as int),
{
    if i >= toks.len() || toks.len() - i <= 3 {
        return false;
    }
    (word_is(m, toks, i, "const") || word_is(m, toks, i, "let") || word_is(m, toks, i, "var"))
        && token_is_identifier(m, toks[i + 1]) && word_is(m, toks, i + 2, "=") && (word_is(
        m,
        toks,
        i + 3,
        "(",
    ) || word_is(m, toks, i + 3, "async"))
}

pub open spec fn body_view(b: Option<(usize, usize)>) -> Option<(int, int)> {
    match b {
        Some((s, e)) => Some((s as int, e as int)),
        None => None,
    }
}

pub open spec fn declaration_view(d: Option<(bool, Option<(usize, usize)>, bool)>) -> Option<
    (bool, Option<(int, int)>, bool),
> {
    match d {
        Some((a, b, q)) => Some((a, body_view(b), q)),
        None => None,
    }
}

fn exec_body(b: (Option<usize>, Option<usize>)) -> (r: Option<(usize, usize)>)
    ensures
        body_view(r) == body_of((opt_pair_view(b.0), opt_pair_view(b.1))),
{
    match b {
        (Some(s), Some(e)) => Some((s, e)),
        _ => None,
    }
}

fn declaration(t: &[char], m: &[char], toks: &Vec<(usize, usize)>, i: usize) -> (r: Option<
    (bool, Option<(usize, usize)>, bool),
>)
    requires
        i < toks@.len(),
        tokens_wf(toks@, m@.len() as int),
        t@.len() == m@.len(),
    ensures
        declaration_view(r) == declaration_at(t@, m@, tok_view(toks@), i as int),
        r matches Some((_, Some((s, e)), _)) ==> e < toks@.len(),
{
    let ghost w = texts(m@, tok_view(toks@));
    assert(w.len() == toks@.len());
    if function_like_at(m, toks, i) && prefix_is_structural(m, toks[i].0) {
        assert(function_like(w, i as int));
        assert(i + 2 < toks.len());
        let close = match find_matching(m, toks, i + 2, "(", ")") {
            Some(c) => c,
            None => return None,
        };
        assert(close < toks.len());
        let boundary = if word_is(m, toks, i, "def") {
            if close + 1 < toks.len() && word_is(m, toks, close + 1, ":") {
                Some((None, None))
            } else {
                None
            }
        } else {
            declaration_boundary(t, m, toks, close + 1, false)
        };
        match boundary {
            None => None,
            Some(b) => {
                let is_async = i > 0 && word_is(m, toks, i - 1, "async");
                Some((is_async, exec_body(b), qualified(m, toks, i)))
            },
        }
    } else if arrow_like_at(m, toks, i) && prefix_is_structural(m, toks[i].0) {
        assert(arrow_like(w, i as int));
        assert(i + 3 < toks.len());
        let is_async = word_is(m, toks, i + 3, "async");
        let opening = if is_async {
            i + 4
        } else {
            i + 3
        };
        if opening >= toks.len() || !word_is(m, toks, opening, "(") {
            return None;
        }
        let close = match find_matching(m, toks, opening, "(", ")") {
            Some(c) => c,
            None => return None,
        };
        if toks.len() - close <= 2 || !word_is(m, toks, close + 1, "=") || !word_is(
            m,
            toks,
            close + 2,
            ">",
        ) {
            return None;
        }
        match declaration_boundary(t, m, toks, close + 3, true) {
            None => None,
            Some(b) => Some((is_async, exec_body(b), qualified(m, toks, i))),
        }
    } else {
        None
    }
}

fn await_in(m: &[char], toks: &Vec<(usize, usize)>, s: usize, e: usize) -> (r: bool)
    requires
        e < toks@.len(),
        tokens_wf(toks@, m@.len() as int),
    ensures
        r == has_await(texts(m@, tok_view(toks@)), s as int, e as int),
{
    let ghost w = texts(m@, tok_view(toks@));
    let mut o = s;
    while o < e
        invariant
            s <= o,
            e < toks@.len(),
            tokens_wf(toks@, m@.len() as int),
            w == texts(m@, tok_view(toks@)),
            forall|j: int|
                s <= j < o ==> !(#[trigger] w[j] == "await"@ && (j == s || w[j - 1] != "."@)),
        decreases e - o,
    {
        if word_is(m, toks, o, "await") && (o == s || !word_is(m, toks, o - 1, ".")) {
            return true;
        }
        o += 1;
    }
    false
}

/// What a source text shows: a function declaration, a directly exposed API
/// declaration, and an async function whose body awaits.
#[derive(Clone, Copy, Debug, Default, PartialEq, Eq)]
pub struct CodeFeatures {
    pub functions: bool,
    pub api: bool,
    pub async_await: bool,
}

/// Reads the code features of a text.
pub fn code_features(text: &str) -> (r: CodeFeatures)
    ensures
        r.functions == spec_functions(text@),
        r.api == spec_api(text@),
        r.async_await == spec_async_await(text@),
{
    let t = crate::text::to_chars(text);
    let m = mask_non_code(&t);
    let toks = lex_tokens(&m);
    let ghost tv = tok_view(toks@);
    let ghost w = texts(m@, tv);
    let mut functions = false;
    let mut api = false;
    let mut async_await = false;
    let mut index: usize = 0;
    while index < toks.len()
        invariant
            index <= toks@.len(),
            t@ == text@,
            m@ == masked(t@),
            m@.len() == t@.len(),
            tv == tok_view(toks@),
            tv == lex(m@),
            w == texts(m@, tv),
            tokens_wf(toks@, m@.len() as int),
            functions == exists|j: int| 0 <= j < index && #[trigger] declared(text@, j) is Some,
            api == exists|j: int|
                0 <= j < index && #[trigger] declared(text@, j) is Some && (declared(
                    text@,
                    j,
                )->0).2,
            async_await == exists|j: int|
                0 <= j < index && #[trigger] declared(text@, j) is Some && (declared(
                    text@,
                    j,
                )->0).0 && (declared(text@, j)->0).1 is Some && has_await(
                    w,
                    ((declared(text@, j)->0).1->0).0,
                    ((declared(text@, j)->0).1->0).1,
                ),
        decreases toks@.len() - index,
    {
        let d = declaration(&t, &m, &toks, index);
        assert(declared(text@, index as int) == declaration_view(d));
        match d {
            Some((is_async, body, exposed)) => {
                functions = true;
                if exposed {
                    api = true;
                }
                if is_async {
                    match body {
                        Some((s, e)) => {
                            if await_in(&m, &toks, s, e) {
                                async_await = true;
                            }
                        },
                        None => {},
                    }
                }
            },
            None => {},
        }
        index += 1;
    }
    CodeFeatures { functions, api, async_await }
}


/// What may stand before a declaration on its line: nothing; the modifier
/// words `pub`, `public`, `export`, `async` and `unsafe`, each in front of a
/// prefix that may stand there; a `#[tauri::command]` attribute in front of
/// such a prefix; and nothing else, so any other word in front makes the
/// line no declaration line.
pub proof fn law_declaration_prefixes(w: Seq<Seq<char>>, x: Seq<char>)
    ensures
        structural(seq![]),
        structural(seq!["pub"@] + w) == structural(w),
        structural(seq!["public"@] + w) == structural(w),
        structural(seq!["export"@] + w) == structural(w),
        structural(seq!["async"@] + w) == structural(w),
        structural(seq!["unsafe"@] + w) == structural(w),
        structural(seq!["#"@, "["@, "tauri"@, ":"@, ":"@, "command"@, "]"@] + w) == structural(w),
        x != "pub"@ && x != "public"@ && x != "export"@ && x != "async"@ && x != "unsafe"@ && x
            != "#"@ ==> !structural(seq![x] + w),
{
    reveal_strlit("pub");
    reveal_strlit("public");
    reveal_strlit("export");
    reveal_strlit("async");
    reveal_strlit("unsafe");
    reveal_strlit("#");
    assert((seq!["pub"@] + w).drop_first() =~= w);
    assert((seq!["public"@] + w).drop_first() =~= w);
    assert((seq!["export"@] + w).drop_first() =~= w);
    assert((seq!["async"@] + w).drop_first() =~= w);
    assert((seq!["unsafe"@] + w).drop_first() =~= w);
    let t = tauri_attr() + w;
    assert(seq!["#"@, "["@, "tauri"@, ":"@, ":"@, "command"@, "]"@] =~= tauri_attr());
    assert(t[0] == "#"@);
    assert(t.take(7) =~= tauri_attr());
    assert(t.skip(7) =~= w);
    let y = seq![x] + w;
    assert(y[0] == x);
    if y.len() >= 7 && y.take(7) == tauri_attr() {
        assert(y.take(7)[0] == x);
    }
}

/// Which words open a declaration: `fn`, `function`, `def`, `func` and `fun`
/// open a function when a name and `(` follow; `const`, `let` and `var` open
/// an arrow function when a name, `=` and then `(` or `async` follow; no
/// other word opens either.
pub proof fn law_declaration_openings(w: Seq<Seq<char>>, name: Seq<char>, x: Seq<char>)
    ensures
        is_identifier(name) ==> function_like(seq!["fn"@, name, "("@] + w, 0),
        is_identifier(name) ==> function_like(seq!["function"@, name, "("@] + w, 0),
        is_identifier(name) ==> function_like(seq!["def"@, name, "("@] + w, 0),
        is_identifier(name) ==> function_like(seq!["func"@, name, "("@] + w, 0),
        is_identifier(name) ==> function_like(seq!["fun"@, name, "("@] + w, 0),
        is_identifier(name) ==> arrow_like(seq!["const"@, name, "="@, "("@] + w, 0),
        is_identifier(name) ==> arrow_like(seq!["let"@, name, "="@, "("@] + w, 0),
        is_identifier(name) ==> arrow_like(seq!["var"@, name, "="@, "async"@] + w, 0),
        x != "fn"@ && x != "function"@ && x != "def"@ && x != "func"@ && x != "fun"@
            ==> !function_like(seq![x] + w, 0),
        x != "const"@ && x != "let"@ && x != "var"@ ==> !arrow_like(seq![x] + w, 0),
{
    let a = seq!["fn"@, name, "("@] + w;
    assert(a[0] == "fn"@ && a[1] == name && a[2] == "("@);
    let a = seq!["function"@, name, "("@] + w;
    assert(a[0] == "function"@ && a[1] == name && a[2] == "("@);
    let a = seq!["def"@, name, "("@] + w;
    assert(a[0] == "def"@ && a[1] == name && a[2] == "("@);
    let a = seq!["func"@, name, "("@] + w;
    assert(a[0] == "func"@ && a[1] == name && a[2] == "("@);
    let a = seq!["fun"@, name, "("@] + w;
    assert(a[0] == "fun"@ && a[1] == name && a[2] == "("@);
    let b = seq!["const"@, name, "="@, "("@] + w;
    assert(b[0] == "const"@ && b[1] == name && b[2] == "="@ && b[3] == "("@);
    let b = seq!["let"@, name, "="@, "("@] + w;
    assert(b[0] == "let"@ && b[1] == name && b[2] == "="@ && b[3] == "("@);
    let b = seq!["var"@, name, "="@, "async"@] + w;
    assert(b[0] == "var"@ && b[1] == name && b[2] == "="@ && b[3] == "async"@);
    assert((seq![x] + w)[0] == x);
}

proof fn lemma_qualifiers_reach_back(v: Seq<Seq<char>>, q: Seq<Seq<char>>, j: int)
    requires
        v.len() >= 7 + q.len() as int,
        v.subrange(0, 7) == tauri_attr(),
        v.subrange(7, 7 + q.len() as int) == q,
        0 <= j <= q.len(),
        forall|k: int| 0 <= k < q.len() ==> #[trigger] q[k] == "async"@ || is_visibility(q[k]),
    ensures
        qualifier_start(v, 7 + j) == 7,
    decreases j,
{
    reveal_strlit("]");
    reveal_strlit("async");
    reveal_strlit("pub");
    reveal_strlit("public");
    reveal_strlit("export");
    assert(v[6] == v.subrange(0, 7)[6]);
    if j > 0 {
        assert(v[7 + j - 1] == v.subrange(7, 7 + q.len() as int)[j - 1]);
        lemma_qualifiers_reach_back(v, q, j - 1);
    }
}

/// A declaration is directly exposed when a `#[tauri::command]` attribute
/// stands before it with only `async`, `pub`, `public` and `export` words in
/// between, whatever their number and order.
pub proof fn law_command_attribute_exposes(q: Seq<Seq<char>>, w: Seq<Seq<char>>)
    requires
        forall|k: int| 0 <= k < q.len() ==> #[trigger] q[k] == "async"@ || q[k] == "pub"@ || q[k]
            == "public"@ || q[k] == "export"@,
    ensures
        directly_qualified(
            seq!["#"@, "["@, "tauri"@, ":"@, ":"@, "command"@, "]"@] + q + w,
            7 + q.len() as int,
        ),
{
    assert(seq!["#"@, "["@, "tauri"@, ":"@, ":"@, "command"@, "]"@] =~= tauri_attr());
    let v = tauri_attr() + q + w;
    assert(v.subrange(0, 7) =~= tauri_attr());
    assert(v.subrange(7, 7 + q.len() as int) =~= q);
    lemma_qualifiers_reach_back(v, q, q.len() as int);
}

} // verus!
