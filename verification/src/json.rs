//! JSON bodies: the pretty-printer, the body formatter and the token colourer.
use vstd::prelude::*;
use vstd::utf8::{decode_utf8, encode_utf8, is_char_boundary};

use crate::color::{painted, Color, BOLD, CYAN, DIM, GREEN, MAGENTA, YELLOW};
use crate::text::{
    is_ascii_alnum, is_ascii_alphanumeric, is_whitespace, is_ws, lemma_trim_end_take, pop_char,
    push_char, repeat, skip_ws_back, str_eq, string_of, to_chars, trim, trim_bounds,
    trim_end, trim_start,
};

verus! {

/// Two spaces per nesting level.
pub open spec fn indent(depth: nat) -> Seq<char> {
    repeat(' ', 2 * depth)
}

/// `s` without its trailing spaces and newlines.
pub open spec fn trim_layout(s: Seq<char>) -> Seq<char>
    decreases s.len(),
{
    if s.len() > 0 && (s.last() == ' ' || s.last() == '\n') {
        trim_layout(s.drop_last())
    } else {
        s
    }
}

/// The pretty-printer's state after reading some prefix of its input.
pub struct PrettyState {
    pub out: Seq<char>,
    pub depth: nat,
    pub in_string: bool,
    pub escaped: bool,
    pub seen: bool,
    pub failed: bool,
}

pub open spec fn pretty_start() -> PrettyState {
    PrettyState {
        out: seq![],
        depth: 0,
        in_string: false,
        escaped: false,
        seen: false,
        failed: false,
    }
}

/// One character of the pretty-printer: inside a string literal every
/// character is copied (a backslash escapes the next one); outside, brackets
/// open and close indented blocks, commas break lines, colons get a space,
/// whitespace is dropped and everything else is copied. A closing bracket
/// with no open block fails.
pub open spec fn pretty_step(st: PrettyState, ch: char) -> PrettyState {
    if st.failed {
        st
    } else if st.in_string {
        let out = st.out.push(ch);
        if st.escaped {
            PrettyState { out, escaped: false, ..st }
        } else if ch == '\\' {
            PrettyState { out, escaped: true, ..st }
        } else if ch == '"' {
            PrettyState { out, in_string: false, ..st }
        } else {
            PrettyState { out, ..st }
        }
    } else if ch == '"' {
        PrettyState { out: st.out.push(ch), in_string: true, seen: true, ..st }
    } else if ch == '{' || ch == '[' {
        PrettyState {
            out: st.out.push(ch).push('\n') + indent(st.depth + 1),
            depth: st.depth + 1,
            seen: true,
            ..st
        }
    } else if ch == '}' || ch == ']' {
        if st.depth == 0 {
            PrettyState { failed: true, ..st }
        } else {
            PrettyState {
                out: (trim_layout(st.out).push('\n') + indent((st.depth - 1) as nat)).push(ch),
                depth: (st.depth - 1) as nat,
                ..st
            }
        }
    } else if ch == ',' {
        PrettyState { out: st.out.push(ch).push('\n') + indent(st.depth), ..st }
    } else if ch == ':' {
        PrettyState { out: st.out.push(':').push(' '), ..st }
    } else if is_ws(ch) {
        st
    } else {
        PrettyState { out: st.out.push(ch), seen: true, ..st }
    }
}

/// The pretty-printer's state after reading all of `s`.
pub open spec fn pretty_scan(s: Seq<char>) -> PrettyState
    decreases s.len(),
{
    if s.len() == 0 {
        pretty_start()
    } else {
        pretty_step(pretty_scan(s.drop_last()), s.last())
    }
}

/// The indented form of `s`, or `None` when its brackets do not balance, a
/// string literal is left open, or it holds nothing but whitespace.
pub open spec fn pretty_json_spec(s: Seq<char>) -> Option<Seq<char>> {
    let st = pretty_scan(s);
    if st.failed || st.in_string || st.depth != 0 || !st.seen {
        None
    } else {
        Some(st.out)
    }
}

/// The text shown for a body: `(empty)` when it is blank; the indented form
/// when, once trimmed, it starts with `{` or `[` and indents; otherwise the
/// body without trailing whitespace.
pub open spec fn format_body_spec(body: Seq<char>) -> Seq<char> {
    let t = trim(body);
    if t.len() == 0 {
        "(empty)"@
    } else if t[0] == '{' || t[0] == '[' {
        match pretty_json_spec(t) {
            Some(o) => o,
            None => trim_end(body),
        }
    } else {
        trim_end(body)
    }
}

/// Whether the first character that is not whitespace opens an object or array.
pub open spec fn looks_like_json(s: Seq<char>) -> bool {
    let t = trim_start(s);
    t.len() > 0 && (t[0] == '{' || t[0] == '[')
}

proof fn lemma_scan_failed(s: Seq<char>, k: int)
    requires
        0 <= k <= s.len(),
        pretty_scan(s.take(k)).failed,
    ensures
        pretty_scan(s).failed,
    decreases s.len(),
{
    if k == s.len() {
        assert(s.take(k) =~= s);
    } else {
        assert(s.drop_last().take(k) =~= s.take(k));
        lemma_scan_failed(s.drop_last(), k);
    }
}

/// Appends two spaces per level of `depth` to `out`.
pub fn push_indent(out: &mut String, depth: usize)
    ensures
        final(out)@ == old(out)@ + indent(depth as nat),
{
    let mut i: usize = 0;
    while i < depth
        invariant
            i <= depth,
            out@ == old(out)@ + indent(i as nat),
        decreases depth - i,
    {
        push_char(out, ' ');
        push_char(out, ' ');
        i = i + 1;
        assert(indent(i as nat) =~= indent((i - 1) as nat).push(' ').push(' '));
    }
}

/// Drops the trailing spaces and newlines of `value`.
pub fn trim_trailing_space(value: &mut String)
    ensures
        final(value)@ == trim_layout(old(value)@),
{
    loop
        invariant
            trim_layout(value@) == trim_layout(old(value)@),
        ensures
            value@ == trim_layout(old(value)@),
        decreases value@.len(),
    {
        let ghost before = value@;
        match pop_char(value) {
            Some(c) => {
                if c != ' ' && c != '\n' {
                    push_char(value, c);
                    assert(value@ =~= before);
                    break ;
                }
            },
            None => {
                break ;
            },
        }
    }
}

/// The indented form of a JSON text (see [`pretty_json_spec`]).
pub fn pretty_json(input: &str) -> (r: Option<String>)
    ensures
        match r {
            Some(o) => pretty_json_spec(input@) == Some(o@),
            None => pretty_json_spec(input@) is None,
        },
{
    let chars = to_chars(input);
    let mut out = String::new();
    let mut depth: usize = 0;
    let mut in_string = false;
    let mut escaped = false;
    let mut seen = false;
    let mut i: usize = 0;
    assert(chars@.take(0) =~= Seq::<char>::empty());
    while i < chars.len()
        invariant
            chars@ == input@,
            i <= chars.len(),
            depth <= i,
            ({
                let st = pretty_scan(chars@.take(i as int));
                &&& st.out == out@
                &&& st.depth == depth as nat
                &&& st.in_string == in_string
                &&& st.escaped == escaped
                &&& st.seen == seen
                &&& !st.failed
            }),
        decreases chars.len() - i,
    {
        let ch = chars[i];
        assert(chars@.take(i + 1).drop_last() =~= chars@.take(i as int));
        if in_string {
            push_char(&mut out, ch);
            if escaped {
                escaped = false;
            } else if ch == '\\' {
                escaped = true;
            } else if ch == '"' {
                in_string = false;
            }
        } else if ch == '"' {
            in_string = true;
            seen = true;
            push_char(&mut out, ch);
        } else if ch == '{' || ch == '[' {
            seen = true;
            push_char(&mut out, ch);
            depth = depth + 1;
            push_char(&mut out, '\n');
            push_indent(&mut out, depth);
        } else if ch == '}' || ch == ']' {
            if depth == 0 {
                proof {
                    lemma_scan_failed(chars@, i + 1);
                }
                return None;
            }
            depth = depth - 1;
            trim_trailing_space(&mut out);
            push_char(&mut out, '\n');
            push_indent(&mut out, depth);
            push_char(&mut out, ch);
        } else if ch == ',' {
            push_char(&mut out, ch);
            push_char(&mut out, '\n');
            push_indent(&mut out, depth);
        } else if ch == ':' {
            push_char(&mut out, ':');
            push_char(&mut out, ' ');
        } else if is_whitespace(ch) {
        } else {
            seen = true;
            push_char(&mut out, ch);
        }
        i = i + 1;
    }
    assert(chars@.take(i as int) =~= chars@);
    if in_string || depth != 0 || !seen {
        return None;
    }
    Some(out)
}

/// The text shown for a request or response body (see [`format_body_spec`]).
pub fn format_body(body: &str) -> (r: String)
    ensures
        r@ == format_body_spec(body@),
{
    let chars = to_chars(body);
    let n = chars.len();
    let (lo, hi) = trim_bounds(&chars, 0, n);
    assert(chars@.subrange(0, n as int) =~= body@);
    let end = skip_ws_back(&chars, 0, n);
    proof {
        lemma_trim_end_take(body@, end as int);
        assert(body@.take(end as int) =~= chars@.subrange(0, end as int));
    }
    if lo == hi {
        return "(empty)".to_owned();
    }
    if chars[lo] == '{' || chars[lo] == '[' {
        let trimmed = string_of(&chars, lo, hi);
        match pretty_json(trimmed.as_str()) {
            Some(o) => o,
            None => string_of(&chars, 0, end),
        }
    } else {
        string_of(&chars, 0, end)
    }
}

/// Whether `value`, once its leading whitespace is dropped, starts with `{` or `[`.
pub fn body_looks_like_json(value: &str) -> (r: bool)
    ensures
        r == looks_like_json(value@),
{
    let chars = to_chars(value);
    let n = chars.len();
    let (lo, _hi) = trim_bounds(&chars, 0, n);
    assert(chars@.subrange(0, n as int) =~= value@);
    lo < n && (chars[lo] == '{' || chars[lo] == '[')
}

// ---------------------------------------------------------------------------
// Token colouring
/// Characters that continue a number or a bare word.
pub open spec fn is_token_char(c: char) -> bool {
    is_ascii_alnum(c) || c == '.' || c == '+' || c == '-'
}

/// Where a string literal whose body starts at `i` ends: just past its closing
/// quote, or at the end of `s` when it is not closed. A backslash escapes the
/// character after it.
pub open spec fn string_end(s: Seq<char>, i: int) -> int
    decreases s.len() - i,
{
    if i >= s.len() {
        s.len() as int
    } else if s[i] == '\\' {
        if i + 1 >= s.len() {
            s.len() as int
        } else {
            string_end(s, i + 2)
        }
    } else if s[i] == '"' {
        i + 1
    } else {
        string_end(s, i + 1)
    }
}

/// Where the run of token characters starting at `i` ends.
pub open spec fn token_end(s: Seq<char>, i: int) -> int
    decreases s.len() - i,
{
    if i >= s.len() {
        s.len() as int
    } else if is_token_char(s[i]) {
        token_end(s, i + 1)
    } else {
        i
    }
}

/// The first character at or after `i` that is not whitespace.
pub open spec fn next_non_ws(s: Seq<char>, i: int) -> Option<char>
    decreases s.len() - i,
{
    if i >= s.len() {
        None
    } else if !is_ws(s[i]) {
        Some(s[i])
    } else {
        next_non_ws(s, i + 1)
    }
}

pub proof fn lemma_string_end_bounds(s: Seq<char>, i: int)
    requires
        0 <= i,
    ensures
        i <= string_end(s, i) <= s.len() || (i > s.len() && string_end(s, i) == s.len()),
        i <= s.len() ==> i <= string_end(s, i) <= s.len(),
    decreases s.len() - i,
{
    if i < s.len() {
        if s[i] == '\\' {
            if i + 1 < s.len() {
                lemma_string_end_bounds(s, i + 2);
            }
        } else if s[i] != '"' {
            lemma_string_end_bounds(s, i + 1);
        }
    }
}

pub proof fn lemma_token_end_bounds(s: Seq<char>, i: int)
    requires
        0 <= i <= s.len(),
    ensures
        i <= token_end(s, i) <= s.len(),
    decreases s.len() - i,
{
    if i < s.len() && is_token_char(s[i]) {
        lemma_token_end_bounds(s, i + 1);
    }
}

/// The colour of a string literal: keys (followed by `:`) and values differ.
pub open spec fn string_code(next: Option<char>) -> Seq<char> {
    if next == Some(':') {
        CYAN@
    } else {
        GREEN@
    }
}

/// The colour of a bare word: the JSON literals and anything else.
pub open spec fn word_code(word: Seq<char>) -> Seq<char> {
    if word == "true"@ || word == "false"@ || word == "null"@ {
        MAGENTA@
    } else {
        BOLD@
    }
}

/// The coloured form of `s` from position `i` on: string literals, brackets,
/// separators, numbers and words are each painted; other characters are kept.
pub open spec fn colorize_from(s: Seq<char>, i: int, enabled: bool) -> Seq<char>
    decreases s.len() - i,
{
    if i < 0 || i >= s.len() {
        seq![]
    } else {
        let ch = s[i];
        if ch == '"' {
            let e = string_end(s, i + 1);
            proof {
                lemma_string_end_bounds(s, i + 1);
            }
            painted(enabled, string_code(next_non_ws(s, e)), s.subrange(i, e)) + colorize_from(
                s,
                e,
                enabled,
            )
        } else if ch == '{' || ch == '}' || ch == '[' || ch == ']' {
            painted(enabled, BOLD@, seq![ch]) + colorize_from(s, i + 1, enabled)
        } else if ch == ':' || ch == ',' {
            painted(enabled, DIM@, seq![ch]) + colorize_from(s, i + 1, enabled)
        } else if ch == '-' || ('0' <= ch && ch <= '9') {
            let e = token_end(s, i + 1);
            proof {
                lemma_token_end_bounds(s, i + 1);
            }
            painted(enabled, YELLOW@, s.subrange(i, e)) + colorize_from(s, e, enabled)
        } else if ('a' <= ch && ch <= 'z') || ('A' <= ch && ch <= 'Z') {
            let e = token_end(s, i + 1);
            proof {
                lemma_token_end_bounds(s, i + 1);
            }
            painted(enabled, word_code(s.subrange(i, e)), s.subrange(i, e)) + colorize_from(
                s,
                e,
                enabled,
            )
        } else {
            seq![ch] + colorize_from(s, i + 1, enabled)
        }
    }
}

/// Reads the rest of a string literal whose opening quote `first` was just
/// read: copies characters from `chars[*pos]` up to and including the closing
/// quote (or to the end), honouring backslash escapes, and moves `*pos` past them.
pub fn consume_json_string(first: char, chars: &Vec<char>, pos: &mut usize) -> (r: String)
    requires
        *old(pos) <= chars.len(),
    ensures
        *final(pos) == string_end(chars@, *old(pos) as int),
        *old(pos) <= *final(pos) <= chars.len(),
        r@ == seq![first] + chars@.subrange(*old(pos) as int, *final(pos) as int),
{
    let ghost s = chars@;
    let start: usize = *pos;
    let mut p: usize = start;
    let mut token = String::new();
    push_char(&mut token, first);
    let mut escaped = false;
    while p < chars.len()
        invariant
            s == chars@,
            start == *old(pos),
            *pos == start,
            start <= p <= chars.len(),
            token@ == seq![first] + s.subrange(start as int, p as int),
            !escaped ==> string_end(s, start as int) == string_end(s, p as int),
            escaped ==> string_end(s, start as int) == if p >= s.len() {
                s.len() as int
            } else {
                string_end(s, p + 1)
            },
        decreases chars.len() - p,
    {
        let ch = chars[p];
        push_char(&mut token, ch);
        p = p + 1;
        assert(s.subrange(start as int, p as int) =~= s.subrange(start as int, p - 1).push(ch));
        if escaped {
            escaped = false;
        } else if ch == '\\' {
            escaped = true;
        } else if ch == '"' {
            *pos = p;
            return token;
        }
    }
    *pos = p;
    token
}

/// Reads the rest of a number or word whose first character `first` was just
/// read, and moves `*pos` past it.
pub fn consume_json_token(first: char, chars: &Vec<char>, pos: &mut usize) -> (r: String)
    requires
        *old(pos) <= chars.len(),
    ensures
        *final(pos) == token_end(chars@, *old(pos) as int),
        *old(pos) <= *final(pos) <= chars.len(),
        r@ == seq![first] + chars@.subrange(*old(pos) as int, *final(pos) as int),
{
    let ghost s = chars@;
    let start: usize = *pos;
    let mut p: usize = start;
    let mut token = String::new();
    push_char(&mut token, first);
    while p < chars.len() && (is_ascii_alphanumeric(chars[p]) || chars[p] == '.' || chars[p]
        == '+' || chars[p] == '-')
        invariant
            s == chars@,
            start <= p <= chars.len(),
            token@ == seq![first] + s.subrange(start as int, p as int),
            token_end(s, start as int) == token_end(s, p as int),
        decreases chars.len() - p,
    {
        let ch = chars[p];
        push_char(&mut token, ch);
        p = p + 1;
        assert(s.subrange(start as int, p as int) =~= s.subrange(start as int, p - 1).push(ch));
    }
    *pos = p;
    token
}

fn next_non_ws_at(chars: &Vec<char>, start: usize) -> (r: Option<char>)
    ensures
        r == next_non_ws(chars@, start as int),
{
    if start >= chars.len() {
        return None;
    }
    let mut i: usize = start;
    while i < chars.len()
        invariant
            start <= i <= chars.len(),
            next_non_ws(chars@, start as int) == next_non_ws(chars@, i as int),
        decreases chars.len() - i,
    {
        if !is_whitespace(chars[i]) {
            return Some(chars[i]);
        }
        i = i + 1;
    }
    None
}

/// The characters of `s` from the byte offset `start` on, when `start` falls
/// on a character boundary of its UTF-8 encoding (as `str::get(start..)`).
pub open spec fn chars_from_byte(s: Seq<char>, start: int) -> Option<Seq<char>> {
    let bytes = encode_utf8(s);
    if is_char_boundary(bytes, start) {
        Some(decode_utf8(bytes.subrange(start, bytes.len() as int)))
    } else {
        None
    }
}

/// The first character of `input` that is not whitespace, from the byte
/// offset `start` on; `None` when `start` is not a character boundary.
pub fn next_non_ws_char(input: &str, start: usize) -> (r: Option<char>)
    ensures
        r == match chars_from_byte(input@, start as int) {
            Some(rest) => next_non_ws(rest, 0),
            None => None,
        },
{
    if !input.is_char_boundary(start) {
        return None;
    }
    let (_, rest) = input.split_at(start);
    proof {
        vstd::utf8::encode_utf8_decode_utf8(rest@);
    }
    let chars = to_chars(rest);
    next_non_ws_at(&chars, 0)
}

/// `input` with each JSON token painted (see [`colorize_from`]).
pub fn colorize_json(input: &str, color: Color) -> (r: String)
    ensures
        r@ == colorize_from(input@, 0, color.enabled),
{
    let chars = to_chars(input);
    let ghost s = chars@;
    let ghost en = color.enabled;
    let mut out = String::new();
    let mut i: usize = 0;
    while i < chars.len()
        invariant
            s == chars@,
            s == input@,
            en == color.enabled,
            i <= chars.len(),
            out@ + colorize_from(s, i as int, en) == colorize_from(s, 0, en),
        decreases chars.len() - i,
    {
        let ch = chars[i];
        let ghost before = out@;
        let ghost at = i as int;
        let mut next = i + 1;
        if ch == '"' {
            let string = consume_json_string(ch, &chars, &mut next);
            let code = if next_non_ws_at(&chars, next) == Some(':') {
                CYAN
            } else {
                GREEN
            };
            let piece = color.paint(code, string.as_str());
            out.append(piece.as_str());
            assert(string@ =~= s.subrange(at, next as int));
        } else if ch == '{' || ch == '}' || ch == '[' || ch == ']' {
            let mut one = String::new();
            push_char(&mut one, ch);
            let piece = color.paint(BOLD, one.as_str());
            out.append(piece.as_str());
        } else if ch == ':' || ch == ',' {
            let mut one = String::new();
            push_char(&mut one, ch);
            let piece = color.paint(DIM, one.as_str());
            out.append(piece.as_str());
        } else if ch == '-' || ('0' <= ch && ch <= '9') {
            let token = consume_json_token(ch, &chars, &mut next);
            let piece = color.paint(YELLOW, token.as_str());
            out.append(piece.as_str());
            assert(token@ =~= s.subrange(at, next as int));
        } else if ('a' <= ch && ch <= 'z') || ('A' <= ch && ch <= 'Z') {
            let token = consume_json_token(ch, &chars, &mut next);
            assert(token@ =~= s.subrange(at, next as int));
            let code = if str_eq(token.as_str(), "true") || str_eq(token.as_str(), "false")
                || str_eq(token.as_str(), "null") {
                MAGENTA
            } else {
                BOLD
            };
            let piece = color.paint(code, token.as_str());
            out.append(piece.as_str());
        } else {
            push_char(&mut out, ch);
        }
        assert(out@ + colorize_from(s, next as int, en) =~= before + colorize_from(s, at, en));
        i = next;
    }
    out
}

// ---------------------------------------------------------------------------
// Laws
/// With colour off, colouring from position `i` gives back the rest of `s`.
proof fn lemma_colorize_plain_from(s: Seq<char>, i: int)
    requires
        0 <= i <= s.len(),
    ensures
        colorize_from(s, i, false) == s.skip(i),
    decreases s.len() - i,
{
    if i < s.len() {
        let ch = s[i];
        if ch == '"' {
            let e = string_end(s, i + 1);
            lemma_string_end_bounds(s, i + 1);
            lemma_colorize_plain_from(s, e);
            assert(s.subrange(i, e) + s.skip(e) =~= s.skip(i));
        } else if ch == '-' || ('0' <= ch && ch <= '9') || ('a' <= ch && ch <= 'z') || ('A' <= ch
            && ch <= 'Z') {
            let e = token_end(s, i + 1);
            lemma_token_end_bounds(s, i + 1);
            lemma_colorize_plain_from(s, e);
            assert(s.subrange(i, e) + s.skip(e) =~= s.skip(i));
        } else {
            lemma_colorize_plain_from(s, i + 1);
            assert(seq![ch] + s.skip(i + 1) =~= s.skip(i));
        }
    } else {
        assert(s.skip(i) =~= Seq::<char>::empty());
    }
}

/// Colouring with colour off leaves any text exactly as it was.
pub proof fn lemma_colorize_disabled_is_identity(s: Seq<char>)
    ensures
        colorize_from(s, 0, false) == s,
{
    lemma_colorize_plain_from(s, 0);
    assert(s.skip(0) =~= s);
}

/// A token of the coloured output: its text and, when it is painted, its colour.
pub struct Piece {
    pub code: Option<Seq<char>>,
    pub text: Seq<char>,
}

/// `s` from position `i` on, cut into the tokens the colourer paints.
pub open spec fn json_pieces(s: Seq<char>, i: int) -> Seq<Piece>
    decreases s.len() - i,
{
    if i < 0 || i >= s.len() {
        seq![]
    } else {
        let ch = s[i];
        if ch == '"' {
            let e = string_end(s, i + 1);
            proof {
                lemma_string_end_bounds(s, i + 1);
            }
            seq![Piece { code: Some(string_code(next_non_ws(s, e))), text: s.subrange(i, e) }]
                + json_pieces(s, e)
        } else if ch == '{' || ch == '}' || ch == '[' || ch == ']' {
            seq![Piece { code: Some(BOLD@), text: seq![ch] }] + json_pieces(s, i + 1)
        } else if ch == ':' || ch == ',' {
            seq![Piece { code: Some(DIM@), text: seq![ch] }] + json_pieces(s, i + 1)
        } else if ch == '-' || ('0' <= ch && ch <= '9') {
            let e = token_end(s, i + 1);
            proof {
                lemma_token_end_bounds(s, i + 1);
            }
            seq![Piece { code: Some(YELLOW@), text: s.subrange(i, e) }] + json_pieces(s, e)
        } else if ('a' <= ch && ch <= 'z') || ('A' <= ch && ch <= 'Z') {
            let e = token_end(s, i + 1);
            proof {
                lemma_token_end_bounds(s, i + 1);
            }
            seq![Piece { code: Some(word_code(s.subrange(i, e))), text: s.subrange(i, e) }]
                + json_pieces(s, e)
        } else {
            seq![Piece { code: None, text: seq![ch] }] + json_pieces(s, i + 1)
        }
    }
}

/// The pieces one after another, each painted in its colour.
pub open spec fn render_pieces(ps: Seq<Piece>, enabled: bool) -> Seq<char>
    decreases ps.len(),
{
    if ps.len() == 0 {
        seq![]
    } else {
        (match ps[0].code {
            Some(c) => painted(enabled, c, ps[0].text),
            None => ps[0].text,
        }) + render_pieces(ps.drop_first(), enabled)
    }
}

/// The texts of the pieces one after another.
pub open spec fn pieces_text(ps: Seq<Piece>) -> Seq<char>
    decreases ps.len(),
{
    if ps.len() == 0 {
        seq![]
    } else {
        ps[0].text + pieces_text(ps.drop_first())
    }
}

proof fn lemma_pieces_from(s: Seq<char>, i: int, enabled: bool)
    requires
        0 <= i <= s.len(),
    ensures
        colorize_from(s, i, enabled) == render_pieces(json_pieces(s, i), enabled),
        pieces_text(json_pieces(s, i)) == s.skip(i),
        forall|k: int| 0 <= k < json_pieces(s, i).len() ==> #[trigger] json_pieces(s, i)[k].text.len() > 0,
    decreases s.len() - i,
{
    let ps = json_pieces(s, i);
    if i < s.len() {
        let ch = s[i];
        let e = if ch == '"' {
            lemma_string_end_bounds(s, i + 1);
            string_end(s, i + 1)
        } else if ch == '-' || ('0' <= ch && ch <= '9') || ('a' <= ch && ch <= 'z') || ('A' <= ch
            && ch <= 'Z') {
            lemma_token_end_bounds(s, i + 1);
            token_end(s, i + 1)
        } else {
            i + 1
        };
        lemma_pieces_from(s, e, enabled);
        let rest = json_pieces(s, e);
        assert(ps.drop_first() =~= rest);
        assert(ps[0].text =~= s.subrange(i, e));
        assert(s.subrange(i, e) + s.skip(e) =~= s.skip(i));
        assert forall|k: int| 0 <= k < ps.len() implies #[trigger] ps[k].text.len() > 0 by {
            if k > 0 {
                assert(ps[k] == rest[k - 1]);
            }
        }
    } else {
        assert(s.skip(i) =~= Seq::<char>::empty());
    }
}

/// The coloured form of a text is the text cut into non-empty tokens, each
/// shown in its colour (or bare): the tokens put back together give the text.
pub proof fn lemma_colorize_paints_tokens(s: Seq<char>, enabled: bool)
    ensures
        colorize_from(s, 0, enabled) == render_pieces(json_pieces(s, 0), enabled),
        pieces_text(json_pieces(s, 0)) == s,
        forall|k: int| 0 <= k < json_pieces(s, 0).len() ==> #[trigger] json_pieces(s, 0)[k].text.len() > 0,
{
    lemma_pieces_from(s, 0, enabled);
    assert(s.skip(0) =~= s);
}

/// No escape character in `t`.
pub open spec fn no_escape_char(t: Seq<char>) -> bool {
    forall|j: int| 0 <= j < t.len() ==> #[trigger] t[j] != '\u{1b}'
}

/// Characters allowed between `ESC [` and the final `m` of a colour code.
pub open spec fn is_param(c: char) -> bool {
    ('0' <= c && c <= '9') || c == ';'
}

/// A colour code: `ESC [`, parameter characters, `m`.
pub open spec fn is_escape_code(c: Seq<char>) -> bool {
    &&& c.len() >= 3
    &&& c[0] == '\u{1b}'
    &&& c[1] == '['
    &&& c[c.len() - 1] == 'm'
    &&& forall|j: int| 2 <= j < c.len() - 1 ==> is_param(#[trigger] c[j])
}

/// A piece that is painted is painted with a colour code.
pub open spec fn code_ok(p: Piece) -> bool {
    match p.code {
        Some(c) => is_escape_code(c),
        None => true,
    }
}

/// The end of the run of parameter characters at or after `i`.
pub open spec fn params_end(t: Seq<char>, i: int) -> int
    decreases t.len() - i,
{
    if i >= t.len() {
        t.len() as int
    } else if is_param(t[i]) {
        params_end(t, i + 1)
    } else {
        i
    }
}

pub proof fn lemma_params_end_bounds(t: Seq<char>, i: int)
    requires
        0 <= i <= t.len(),
    ensures
        i <= params_end(t, i) <= t.len(),
    decreases t.len() - i,
{
    if i < t.len() && is_param(t[i]) {
        lemma_params_end_bounds(t, i + 1);
    }
}

/// The length of the colour code that `t` starts with, if it starts with one.
pub open spec fn escape_len(t: Seq<char>) -> Option<int> {
    if t.len() >= 2 && t[0] == '\u{1b}' && t[1] == '[' {
        let k = params_end(t, 2);
        if k < t.len() && t[k] == 'm' {
            Some(k + 1)
        } else {
            None
        }
    } else {
        None
    }
}

/// `t` with every colour code `ESC [ ... m` taken out.
pub open spec fn strip_escapes(t: Seq<char>) -> Seq<char>
    decreases t.len(),
{
    if t.len() == 0 {
        seq![]
    } else {
        match escape_len(t) {
            Some(k) => {
                proof {
                    lemma_params_end_bounds(t, 2);
                }
                strip_escapes(t.skip(k))
            },
            None => seq![t[0]] + strip_escapes(t.drop_first()),
        }
    }
}

proof fn lemma_params_end_at(t: Seq<char>, i: int, k: int)
    requires
        0 <= i <= k < t.len(),
        forall|j: int| i <= j < k ==> is_param(#[trigger] t[j]),
        !is_param(t[k]),
    ensures
        params_end(t, i) == k,
    decreases k - i,
{
    if i < k {
        lemma_params_end_at(t, i + 1, k);
    }
}

proof fn lemma_strip_code(c: Seq<char>, r: Seq<char>)
    requires
        is_escape_code(c),
    ensures
        strip_escapes(c + r) == strip_escapes(r),
{
    let t = c + r;
    assert forall|j: int| 2 <= j < c.len() - 1 implies is_param(#[trigger] t[j]) by {
        assert(t[j] == c[j]);
        assert(is_param(c[j]));
    }
    lemma_params_end_at(t, 2, c.len() - 1);
    assert(t.skip(c.len() as int) =~= r);
}

proof fn lemma_strip_plain(x: Seq<char>, r: Seq<char>)
    requires
        no_escape_char(x),
    ensures
        strip_escapes(x + r) == x + strip_escapes(r),
    decreases x.len(),
{
    if x.len() == 0 {
        assert(x + r =~= r);
    } else {
        let t = x + r;
        assert(t[0] == x[0]);
        assert(no_escape_char(x.drop_first())) by {
            assert forall|j: int| 0 <= j < x.drop_first().len() implies #[trigger] x.drop_first()[j]
                != '\u{1b}' by {
                assert(x.drop_first()[j] == x[j + 1]);
            }
        }
        lemma_strip_plain(x.drop_first(), r);
        assert(t.drop_first() =~= x.drop_first() + r);
        assert(seq![x[0]] + (x.drop_first() + strip_escapes(r)) =~= x + strip_escapes(r));
    }
}

proof fn lemma_color_codes()
    ensures
        is_escape_code(BOLD@),
        is_escape_code(DIM@),
        is_escape_code(CYAN@),
        is_escape_code(GREEN@),
        is_escape_code(YELLOW@),
        is_escape_code(MAGENTA@),
        is_escape_code(crate::color::RESET@),
{
    reveal_strlit("\x1b[1m");
    reveal_strlit("\x1b[2m");
    reveal_strlit("\x1b[36m");
    reveal_strlit("\x1b[32m");
    reveal_strlit("\x1b[33m");
    reveal_strlit("\x1b[35m");
    reveal_strlit("\x1b[0m");
}

proof fn lemma_pieces_codes(s: Seq<char>, i: int)
    requires
        0 <= i <= s.len(),
        no_escape_char(s),
    ensures
        forall|k: int|
            0 <= k < json_pieces(s, i).len() ==> code_ok(#[trigger] json_pieces(s, i)[k]),
        forall|k: int|
            0 <= k < json_pieces(s, i).len() ==> no_escape_char(#[trigger] json_pieces(s, i)[k].text),
    decreases s.len() - i,
{
    let ps = json_pieces(s, i);
    lemma_color_codes();
    if i < s.len() {
        let ch = s[i];
        let e = if ch == '"' {
            lemma_string_end_bounds(s, i + 1);
            string_end(s, i + 1)
        } else if ch == '-' || ('0' <= ch && ch <= '9') || ('a' <= ch && ch <= 'z') || ('A' <= ch
            && ch <= 'Z') {
            lemma_token_end_bounds(s, i + 1);
            token_end(s, i + 1)
        } else {
            i + 1
        };
        lemma_pieces_codes(s, e);
        let rest = json_pieces(s, e);
        assert(ps.drop_first() =~= rest);
        assert(ps[0].text =~= s.subrange(i, e));
        assert(no_escape_char(ps[0].text)) by {
            assert forall|j: int| 0 <= j < ps[0].text.len() implies #[trigger] ps[0].text[j] != '\u{1b}' by {
                assert(ps[0].text[j] == s[i + j]);
            }
        }
        assert forall|k: int| 0 < k < ps.len() implies #[trigger] ps[k] == rest[k - 1] by {}
    }
}

proof fn lemma_strip_rendered(ps: Seq<Piece>)
    requires
        forall|k: int| 0 <= k < ps.len() ==> code_ok(#[trigger] ps[k]),
        forall|k: int| 0 <= k < ps.len() ==> no_escape_char(#[trigger] ps[k].text),
    ensures
        strip_escapes(render_pieces(ps, true)) == pieces_text(ps),
    decreases ps.len(),
{
    if ps.len() > 0 {
        let p0 = ps[0];
        let rest = ps.drop_first();
        assert forall|k: int| 0 <= k < rest.len() implies code_ok(#[trigger] rest[k]) by {
            assert(rest[k] == ps[k + 1]);
        }
        assert forall|k: int| 0 <= k < rest.len() implies no_escape_char(#[trigger] rest[k].text) by {
            assert(rest[k] == ps[k + 1]);
        }
        lemma_strip_rendered(rest);
        let tail = render_pieces(rest, true);
        assert(no_escape_char(ps[0].text));
        match p0.code {
            Some(c) => {
                lemma_color_codes();
                assert(is_escape_code(c));
                let reset = crate::color::RESET@;
                assert(c + p0.text + reset + tail =~= c + (p0.text + (reset + tail)));
                lemma_strip_code(c, p0.text + (reset + tail));
                lemma_strip_plain(p0.text, reset + tail);
                lemma_strip_code(reset, tail);
            },
            None => {
                lemma_strip_plain(p0.text, tail);
            },
        }
    }
}

/// Taking every colour code out of the coloured form of a text without escape
/// characters gives the text back.
pub proof fn lemma_colorize_strip_escapes(s: Seq<char>)
    requires
        no_escape_char(s),
    ensures
        strip_escapes(colorize_from(s, 0, true)) == s,
{
    lemma_colorize_paints_tokens(s, true);
    lemma_pieces_codes(s, 0);
    lemma_strip_rendered(json_pieces(s, 0));
}

/// What a JSON reader keeps of a text: string literals as they are, and every
/// character outside them except whitespace.
pub struct ContentState {
    pub kept: Seq<char>,
    pub in_string: bool,
    pub escaped: bool,
}

pub open spec fn content_step(st: ContentState, ch: char) -> ContentState {
    if st.in_string {
        let kept = st.kept.push(ch);
        if st.escaped {
            ContentState { kept, escaped: false, ..st }
        } else if ch == '\\' {
            ContentState { kept, escaped: true, ..st }
        } else if ch == '"' {
            ContentState { kept, in_string: false, ..st }
        } else {
            ContentState { kept, ..st }
        }
    } else if ch == '"' {
        ContentState { kept: st.kept.push(ch), in_string: true, ..st }
    } else if is_ws(ch) {
        st
    } else {
        ContentState { kept: st.kept.push(ch), ..st }
    }
}

pub open spec fn content_scan(s: Seq<char>) -> ContentState
    decreases s.len(),
{
    if s.len() == 0 {
        ContentState { kept: seq![], in_string: false, escaped: false }
    } else {
        content_step(content_scan(s.drop_last()), s.last())
    }
}

/// The content of a JSON text: `s` without the whitespace outside its string literals.
pub open spec fn json_content(s: Seq<char>) -> Seq<char> {
    content_scan(s).kept
}

/// Spaces and newlines only.
pub open spec fn is_layout(w: Seq<char>) -> bool {
    forall|i: int| 0 <= i < w.len() ==> (#[trigger] w[i] == ' ' || w[i] == '\n')
}

proof fn lemma_content_push(a: Seq<char>, c: char)
    ensures
        content_scan(a.push(c)) == content_step(content_scan(a), c),
{
    assert(a.push(c).drop_last() =~= a);
}

proof fn lemma_content_layout(a: Seq<char>, w: Seq<char>)
    requires
        !content_scan(a).in_string,
        is_layout(w),
    ensures
        content_scan(a + w) == content_scan(a),
    decreases w.len(),
{
    if w.len() == 0 {
        assert(a + w =~= a);
    } else {
        let w0 = w.drop_last();
        assert(is_layout(w0)) by {
            assert forall|i: int| 0 <= i < w0.len() implies (#[trigger] w0[i] == ' ' || w0[i]
                == '\n') by {
                assert(w0[i] == w[i]);
            }
        }
        lemma_content_layout(a, w0);
        assert(a + w =~= (a + w0).push(w.last()));
        lemma_content_push(a + w0, w.last());
        assert(w[w.len() - 1] == ' ' || w[w.len() - 1] == '\n');
        assert(is_ws(' ') && is_ws('\n'));
    }
}

proof fn lemma_content_trim_layout(a: Seq<char>)
    requires
        !content_scan(a).in_string,
    ensures
        content_scan(trim_layout(a)) == content_scan(a),
    decreases a.len(),
{
    if a.len() > 0 && (a.last() == ' ' || a.last() == '\n') {
        let a0 = a.drop_last();
        lemma_content_push(a0, a.last());
        assert(a0.push(a.last()) =~= a);
        assert(is_ws(' ') && is_ws('\n'));
        lemma_content_trim_layout(a0);
    }
}

proof fn lemma_layout_indent(depth: nat)
    ensures
        is_layout(seq!['\n'] + indent(depth)),
        is_layout(seq![' ']),
{
    let w = seq!['\n'] + indent(depth);
    assert forall|i: int| 0 <= i < w.len() implies (#[trigger] w[i] == ' ' || w[i] == '\n') by {
        if i > 0 {
            assert(w[i] == indent(depth)[i - 1]);
        }
    }
    let w1 = seq![' '];
    assert forall|i: int| 0 <= i < w1.len() implies (#[trigger] w1[i] == ' ' || w1[i] == '\n') by {}
}

proof fn lemma_pretty_content(p: Seq<char>)
    requires
        !pretty_scan(p).failed,
    ensures
        content_scan(pretty_scan(p).out) == content_scan(p),
        pretty_scan(p).in_string == content_scan(p).in_string,
        pretty_scan(p).escaped == content_scan(p).escaped,
    decreases p.len(),
{
    if p.len() > 0 {
        let q = p.drop_last();
        let ch = p.last();
        let st = pretty_scan(q);
        assert(q.push(ch) =~= p);
        if st.failed {
            assert(pretty_scan(p).failed);
        }
        lemma_pretty_content(q);
        lemma_content_push(q, ch);
        lemma_content_push(st.out, ch);
        assert(is_ws(' ') && is_ws('\n'));
        if st.in_string {
        } else if ch == '"' {
        } else if ch == '{' || ch == '[' {
            lemma_layout_indent(st.depth + 1);
            assert(st.out.push(ch).push('\n') + indent(st.depth + 1) =~= st.out.push(ch) + (
            seq!['\n'] + indent(st.depth + 1)));
            lemma_content_layout(st.out.push(ch), seq!['\n'] + indent(st.depth + 1));
        } else if ch == '}' || ch == ']' {
            let d = (st.depth - 1) as nat;
            let t = trim_layout(st.out);
            lemma_content_trim_layout(st.out);
            lemma_layout_indent(d);
            assert(t.push('\n') + indent(d) =~= t + (seq!['\n'] + indent(d)));
            lemma_content_layout(t, seq!['\n'] + indent(d));
            lemma_content_push(t.push('\n') + indent(d), ch);
        } else if ch == ',' {
            lemma_layout_indent(st.depth);
            assert(st.out.push(ch).push('\n') + indent(st.depth) =~= st.out.push(ch) + (seq!['\n']
                + indent(st.depth)));
            lemma_content_layout(st.out.push(ch), seq!['\n'] + indent(st.depth));
        } else if ch == ':' {
            lemma_layout_indent(0);
            assert(st.out.push(':').push(' ') =~= st.out.push(':') + seq![' ']);
            lemma_content_layout(st.out.push(':'), seq![' ']);
        }
    }
}

/// Pretty-printing changes only the whitespace outside string literals: the
/// indented text holds the same content as its input.
pub proof fn lemma_pretty_json_keeps_content(s: Seq<char>)
    ensures
        pretty_json_spec(s) matches Some(o) ==> json_content(o) == json_content(s),
{
    if !pretty_scan(s).failed {
        lemma_pretty_content(s);
    }
}

proof fn lemma_layout_space_newline()
    ensures
        is_ws(' '),
        is_ws('\n'),
{
}

/// Reading spaces and newlines outside a string literal changes nothing.
proof fn lemma_scan_layout(y: Seq<char>, w: Seq<char>)
    requires
        !pretty_scan(y).in_string,
        !pretty_scan(y).failed,
        is_layout(w),
    ensures
        pretty_scan(y + w) == pretty_scan(y),
    decreases w.len(),
{
    if w.len() == 0 {
        assert(y + w =~= y);
    } else {
        let w0 = w.drop_last();
        assert(is_layout(w0)) by {
            assert forall|i: int| 0 <= i < w0.len() implies (#[trigger] w0[i] == ' ' || w0[i]
                == '\n') by {
                assert(w0[i] == w[i]);
            }
        }
        lemma_scan_layout(y, w0);
        assert((y + w).drop_last() =~= y + w0);
        assert(w[w.len() - 1] == ' ' || w[w.len() - 1] == '\n');
        lemma_layout_space_newline();
    }
}

/// Dropping trailing spaces and newlines read outside a string changes nothing.
proof fn lemma_scan_trim_layout(y: Seq<char>)
    requires
        !pretty_scan(y).in_string,
        !pretty_scan(y).failed,
    ensures
        pretty_scan(trim_layout(y)) == pretty_scan(y),
    decreases y.len(),
{
    if y.len() > 0 && (y.last() == ' ' || y.last() == '\n') {
        let y0 = y.drop_last();
        lemma_layout_space_newline();
        let st0 = pretty_scan(y0);
        if st0.failed || st0.in_string {
            assert(pretty_scan(y) == pretty_step(st0, y.last()));
        }
        lemma_scan_trim_layout(y0);
    }
}

/// Every output the pretty-printer has written so far reads back to the very
/// state that wrote it.
proof fn lemma_scan_of_output(p: Seq<char>)
    requires
        !pretty_scan(p).failed,
    ensures
        pretty_scan(pretty_scan(p).out) == pretty_scan(p),
    decreases p.len(),
{
    if p.len() == 0 {
        assert(pretty_scan(p).out =~= Seq::<char>::empty());
    } else {
        let q = p.drop_last();
        let ch = p.last();
        let st = pretty_scan(q);
        assert(q.push(ch) =~= p);
        if st.failed {
            assert(pretty_scan(p).failed);
        }
        lemma_scan_of_output(q);
        assert(pretty_scan(st.out) == st);
        assert(st.out.push(ch).drop_last() =~= st.out);
        assert(pretty_scan(st.out.push(ch)) == pretty_step(st, ch));
        if st.in_string {
        } else if ch == '"' {
        } else if ch == '{' || ch == '[' {
            lemma_layout_indent(st.depth + 1);
            assert(st.out.push(ch).push('\n') + indent(st.depth + 1) =~= st.out.push(ch) + (
            seq!['\n'] + indent(st.depth + 1)));
            lemma_scan_layout(st.out.push(ch), seq!['\n'] + indent(st.depth + 1));
        } else if ch == '}' || ch == ']' {
            if st.depth > 0 {
                let d = (st.depth - 1) as nat;
                let t = trim_layout(st.out);
                lemma_scan_trim_layout(st.out);
                lemma_layout_indent(d);
                assert(t.push('\n') + indent(d) =~= t + (seq!['\n'] + indent(d)));
                lemma_scan_layout(t, seq!['\n'] + indent(d));
                let u = t.push('\n') + indent(d);
                assert(u.push(ch).drop_last() =~= u);
                assert(pretty_scan(u.push(ch)) == pretty_step(pretty_scan(u), ch));
            }
        } else if ch == ',' {
            lemma_layout_indent(st.depth);
            assert(st.out.push(ch).push('\n') + indent(st.depth) =~= st.out.push(ch) + (seq!['\n']
                + indent(st.depth)));
            lemma_scan_layout(st.out.push(ch), seq!['\n'] + indent(st.depth));
        } else if ch == ':' {
            lemma_layout_indent(0);
            assert(st.out.push(':').push(' ') =~= st.out.push(':') + seq![' ']);
            lemma_scan_layout(st.out.push(':'), seq![' ']);
        }
    }
}

/// Pretty-printing is idempotent: the indented form of an indented text is itself.
pub proof fn lemma_pretty_json_idempotent(s: Seq<char>)
    ensures
        pretty_json_spec(s) matches Some(o) ==> pretty_json_spec(o) == Some(o),
{
    if !pretty_scan(s).failed {
        lemma_scan_of_output(s);
    }
}

/// Outside string literals, `o` holds no whitespace but spaces and newlines.
pub open spec fn only_layout_whitespace(o: Seq<char>) -> bool {
    forall|j: int|
        0 <= j < o.len() && !content_scan(#[trigger] o.take(j)).in_string && is_ws(o[j]) ==> o[j]
            == ' ' || o[j] == '\n'
}

proof fn lemma_layout_ws_push(o: Seq<char>, c: char)
    requires
        only_layout_whitespace(o),
        content_scan(o).in_string || !is_ws(c) || c == ' ' || c == '\n',
    ensures
        only_layout_whitespace(o.push(c)),
{
    let q = o.push(c);
    assert forall|j: int|
        0 <= j < q.len() && !content_scan(#[trigger] q.take(j)).in_string && is_ws(q[j]) implies q[j]
        == ' ' || q[j] == '\n' by {
        if j < o.len() {
            assert(q.take(j) =~= o.take(j));
            assert(q[j] == o[j]);
        } else {
            assert(q.take(j) =~= o);
        }
    }
}

proof fn lemma_layout_ws_append(o: Seq<char>, w: Seq<char>)
    requires
        only_layout_whitespace(o),
        is_layout(w),
    ensures
        only_layout_whitespace(o + w),
    decreases w.len(),
{
    if w.len() == 0 {
        assert(o + w =~= o);
    } else {
        let w0 = w.drop_last();
        assert(is_layout(w0)) by {
            assert forall|i: int| 0 <= i < w0.len() implies (#[trigger] w0[i] == ' ' || w0[i]
                == '\n') by {
                assert(w0[i] == w[i]);
            }
        }
        lemma_layout_ws_append(o, w0);
        assert(w[w.len() - 1] == ' ' || w[w.len() - 1] == '\n');
        lemma_layout_ws_push(o + w0, w.last());
        assert((o + w0).push(w.last()) =~= o + w);
    }
}

proof fn lemma_layout_ws_trim(o: Seq<char>)
    requires
        only_layout_whitespace(o),
    ensures
        only_layout_whitespace(trim_layout(o)),
    decreases o.len(),
{
    if o.len() > 0 && (o.last() == ' ' || o.last() == '\n') {
        let o0 = o.drop_last();
        assert forall|j: int|
            0 <= j < o0.len() && !content_scan(#[trigger] o0.take(j)).in_string && is_ws(o0[j]) implies
            o0[j] == ' ' || o0[j] == '\n' by {
            assert(o0.take(j) =~= o.take(j));
            assert(o0[j] == o[j]);
        }
        lemma_layout_ws_trim(o0);
    }
}

proof fn lemma_pretty_layout(p: Seq<char>)
    requires
        !pretty_scan(p).failed,
    ensures
        only_layout_whitespace(pretty_scan(p).out),
    decreases p.len(),
{
    if p.len() == 0 {
        assert(pretty_scan(p).out =~= Seq::<char>::empty());
    } else {
        let q = p.drop_last();
        let ch = p.last();
        let st = pretty_scan(q);
        assert(q.push(ch) =~= p);
        if st.failed {
            assert(pretty_scan(p).failed);
        }
        lemma_pretty_layout(q);
        lemma_pretty_content(q);
        let o = st.out;
        if st.in_string {
            lemma_layout_ws_push(o, ch);
        } else if ch == '"' {
            lemma_layout_ws_push(o, ch);
        } else if ch == '{' || ch == '[' {
            lemma_layout_ws_push(o, ch);
            lemma_layout_indent(st.depth + 1);
            assert(o.push(ch).push('\n') + indent(st.depth + 1) =~= o.push(ch) + (seq!['\n']
                + indent(st.depth + 1)));
            lemma_layout_ws_append(o.push(ch), seq!['\n'] + indent(st.depth + 1));
        } else if ch == '}' || ch == ']' {
            if st.depth > 0 {
                let d = (st.depth - 1) as nat;
                let t = trim_layout(o);
                lemma_layout_ws_trim(o);
                lemma_layout_indent(d);
                assert(t.push('\n') + indent(d) =~= t + (seq!['\n'] + indent(d)));
                lemma_layout_ws_append(t, seq!['\n'] + indent(d));
                lemma_layout_ws_push(t.push('\n') + indent(d), ch);
            }
        } else if ch == ',' {
            lemma_layout_ws_push(o, ch);
            lemma_layout_indent(st.depth);
            assert(o.push(ch).push('\n') + indent(st.depth) =~= o.push(ch) + (seq!['\n'] + indent(
                st.depth,
            )));
            lemma_layout_ws_append(o.push(ch), seq!['\n'] + indent(st.depth));
        } else if ch == ':' {
            lemma_layout_ws_push(o, ':');
            lemma_layout_indent(0);
            assert(o.push(':').push(' ') =~= o.push(':') + seq![' ']);
            lemma_layout_ws_append(o.push(':'), seq![' ']);
        } else if is_ws(ch) {
        } else {
            lemma_layout_ws_push(o, ch);
        }
    }
}

/// The indented text holds, outside its string literals, no whitespace but
/// the spaces and newlines of the layout: tabs, carriage returns and every
/// other whitespace character of the input between tokens are dropped.
pub proof fn lemma_pretty_json_layout(s: Seq<char>)
    ensures
        pretty_json_spec(s) matches Some(o) ==> only_layout_whitespace(o),
{
    if !pretty_scan(s).failed {
        lemma_pretty_layout(s);
    }
}

/// The colour a token must have, whatever its place: `true`, `false` and
/// `null` are magenta, numbers yellow, brackets bold, `:` and `,` dim, and
/// string literals cyan or green.
pub open spec fn piece_colour_ok(pc: Piece) -> bool {
    let t = pc.text;
    &&& (t == "true"@ || t == "false"@ || t == "null"@) ==> pc.code == Some(MAGENTA@)
    &&& (t.len() > 0 && (t[0] == '-' || ('0' <= t[0] && t[0] <= '9'))) ==> pc.code == Some(YELLOW@)
    &&& (t == seq!['{'] || t == seq!['}'] || t == seq!['['] || t == seq![']']) ==> pc.code == Some(
        BOLD@,
    )
    &&& (t == seq![':'] || t == seq![',']) ==> pc.code == Some(DIM@)
    &&& (t.len() > 0 && t[0] == '"') ==> (pc.code == Some(CYAN@) || pc.code == Some(GREEN@))
}

proof fn lemma_literal_words()
    ensures
        "true"@.len() == 4 && "true"@[0] == 't',
        "false"@.len() == 5 && "false"@[0] == 'f',
        "null"@.len() == 4 && "null"@[0] == 'n',
{
    reveal_strlit("true");
    assert("true"@.len() == 4);
    assert("true"@[0] == 't');
    assert("true"@[1] == 'r');
    assert("true"@[2] == 'u');
    assert("true"@[3] == 'e');
    reveal_strlit("false");
    assert("false"@.len() == 5);
    assert("false"@[0] == 'f');
    assert("false"@[1] == 'a');
    assert("false"@[2] == 'l');
    assert("false"@[3] == 's');
    assert("false"@[4] == 'e');
    reveal_strlit("null");
    assert("null"@.len() == 4);
    assert("null"@[0] == 'n');
    assert("null"@[1] == 'u');
    assert("null"@[2] == 'l');
    assert("null"@[3] == 'l');
}

proof fn lemma_pieces_colours(s: Seq<char>, i: int)
    requires
        0 <= i <= s.len(),
    ensures
        forall|k: int| 0 <= k < json_pieces(s, i).len() ==> piece_colour_ok(#[trigger] json_pieces(s, i)[k]),
    decreases s.len() - i,
{
    let ps = json_pieces(s, i);
    lemma_literal_words();
    if i < s.len() {
        let ch = s[i];
        let e = if ch == '"' {
            lemma_string_end_bounds(s, i + 1);
            string_end(s, i + 1)
        } else if ch == '-' || ('0' <= ch && ch <= '9') || ('a' <= ch && ch <= 'z') || ('A' <= ch
            && ch <= 'Z') {
            lemma_token_end_bounds(s, i + 1);
            token_end(s, i + 1)
        } else {
            i + 1
        };
        lemma_pieces_colours(s, e);
        let rest = json_pieces(s, e);
        let t = ps[0].text;
        assert(t =~= s.subrange(i, e));
        assert(t[0] == ch);
        if t.len() == 1 {
            assert(t =~= seq![ch]);
        }
        assert(piece_colour_ok(ps[0]));
        assert forall|k: int| 0 < k < ps.len() implies #[trigger] ps[k] == rest[k - 1] by {}
    }
}

/// The coloured form of a text is its tokens, each painted in the colour its
/// kind calls for (see [`piece_colour_ok`]).
pub proof fn lemma_colorize_token_colours(s: Seq<char>, enabled: bool)
    ensures
        colorize_from(s, 0, enabled) == render_pieces(json_pieces(s, 0), enabled),
        pieces_text(json_pieces(s, 0)) == s,
        forall|k: int| 0 <= k < json_pieces(s, 0).len() ==> piece_colour_ok(#[trigger] json_pieces(s, 0)[k]),
{
    lemma_colorize_paints_tokens(s, enabled);
    lemma_pieces_colours(s, 0);
}

} // verus!
