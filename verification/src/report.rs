//! The trace report: shell quoting, the curl command preview, the small field
//! formatters, and the layout of the whole report.
use vstd::prelude::*;

use crate::args::{Config, ConfigSpec};
use crate::color::{method_code, painted, status_code, Color, BOLD_CYAN, CYAN, DIM, MAGENTA};
use crate::curl::{flag_pairs, CurlMeta};
use crate::json::{colorize_from, format_body, format_body_spec, looks_like_json};
use crate::text::{
    find_char, find_from, is_ascii_alnum, is_ascii_alphanumeric, lemma_find_char_shift,
    push_char, push_chars, repeat, str_eq, to_chars,
};

verus! {

// ---------------------------------------------------------------------------
// Shell quoting
/// Characters that a POSIX shell reads as themselves outside quotes.
pub open spec fn is_shell_safe(c: char) -> bool {
    is_ascii_alnum(c) || c == '-' || c == '_' || c == '.' || c == '/' || c == ':' || c == '='
        || c == '+'
}

pub open spec fn all_shell_safe(s: Seq<char>) -> bool {
    forall|i: int| 0 <= i < s.len() ==> is_shell_safe(#[trigger] s[i])
}

/// `s` with each `'` written as `'\''` (close the quote, an escaped quote, reopen).
pub open spec fn escape_quotes(s: Seq<char>) -> Seq<char>
    decreases s.len(),
{
    if s.len() == 0 {
        seq![]
    } else if s.last() == '\'' {
        escape_quotes(s.drop_last()) + seq!['\'', '\\', '\'', '\'']
    } else {
        escape_quotes(s.drop_last()).push(s.last())
    }
}

/// `s` as it is when every character is safe for the shell; otherwise in
/// single quotes, with its own single quotes escaped.
pub open spec fn shell_quote_spec(s: Seq<char>) -> Seq<char> {
    if all_shell_safe(s) {
        s
    } else {
        seq!['\''] + escape_quotes(s) + seq!['\'']
    }
}

/// `value` written so that a POSIX shell reads it back as one argument.
pub fn shell_quote(value: &str) -> (r: String)
    ensures
        r@ == shell_quote_spec(value@),
{
    let v = to_chars(value);
    let mut i: usize = 0;
    let mut safe = true;
    while i < v.len()
        invariant
            v@ == value@,
            i <= v.len(),
            safe == (forall|k: int| 0 <= k < i ==> is_shell_safe(#[trigger] v@[k])),
        decreases v.len() - i,
    {
        let c = v[i];
        let ok = is_ascii_alphanumeric(c) || c == '-' || c == '_' || c == '.' || c == '/' || c
            == ':' || c == '=' || c == '+';
        safe = safe && ok;
        i = i + 1;
    }
    if safe {
        return value.to_owned();
    }
    let mut out = String::new();
    push_char(&mut out, '\'');
    let mut j: usize = 0;
    while j < v.len()
        invariant
            v@ == value@,
            j <= v.len(),
            out@ == seq!['\''] + escape_quotes(v@.take(j as int)),
        decreases v.len() - j,
    {
        let c = v[j];
        if c == '\'' {
            push_char(&mut out, '\'');
            push_char(&mut out, '\\');
            push_char(&mut out, '\'');
            push_char(&mut out, '\'');
        } else {
            push_char(&mut out, c);
        }
        j = j + 1;
        assert(v@.take(j as int).drop_last() =~= v@.take(j - 1));
    }
    assert(v@.take(v@.len() as int) =~= v@);
    push_char(&mut out, '\'');
    out
}

/// How a POSIX shell reads a word: single quotes keep everything up to the
/// next single quote, a backslash outside quotes keeps the next character,
/// and the quote and backslash characters themselves are dropped.
#[verifier::ext_equal]
pub struct ShellRead {
    pub out: Seq<char>,
    pub quoted: bool,
    pub escaped: bool,
}

pub open spec fn shell_step(st: ShellRead, c: char) -> ShellRead {
    if st.quoted {
        if c == '\'' {
            ShellRead { quoted: false, ..st }
        } else {
            ShellRead { out: st.out.push(c), ..st }
        }
    } else if st.escaped {
        ShellRead { out: st.out.push(c), escaped: false, ..st }
    } else if c == '\\' {
        ShellRead { escaped: true, ..st }
    } else if c == '\'' {
        ShellRead { quoted: true, ..st }
    } else {
        ShellRead { out: st.out.push(c), ..st }
    }
}

pub open spec fn shell_read_from(st: ShellRead, s: Seq<char>) -> ShellRead
    decreases s.len(),
{
    if s.len() == 0 {
        st
    } else {
        shell_step(shell_read_from(st, s.drop_last()), s.last())
    }
}

/// The shell's reading of the word `s`.
pub open spec fn shell_read(s: Seq<char>) -> ShellRead {
    shell_read_from(ShellRead { out: seq![], quoted: false, escaped: false }, s)
}

proof fn lemma_shell_read_concat(st: ShellRead, a: Seq<char>, b: Seq<char>)
    ensures
        shell_read_from(st, a + b) == shell_read_from(shell_read_from(st, a), b),
    decreases b.len(),
{
    if b.len() == 0 {
        assert(a + b =~= a);
    } else {
        lemma_shell_read_concat(st, a, b.drop_last());
        assert((a + b).drop_last() =~= a + b.drop_last());
    }
}

proof fn lemma_shell_read_safe(s: Seq<char>)
    requires
        all_shell_safe(s),
    ensures
        shell_read(s) == (ShellRead { out: s, quoted: false, escaped: false }),
    decreases s.len(),
{
    if s.len() > 0 {
        let t = s.drop_last();
        assert(all_shell_safe(t)) by {
            assert forall|i: int| 0 <= i < t.len() implies is_shell_safe(#[trigger] t[i]) by {
                assert(t[i] == s[i]);
            }
        }
        lemma_shell_read_safe(t);
        let c = s.last();
        assert(is_shell_safe(s[s.len() - 1]));
        assert(c != '\'' && c != '\\');
        assert(t.push(c) =~= s);
        assert(shell_read(s) =~= shell_step(shell_read(t), c));
    }
}

proof fn lemma_shell_read_escaped(o: Seq<char>, s: Seq<char>)
    ensures
        shell_read_from(ShellRead { out: o, quoted: true, escaped: false }, escape_quotes(s)) == (
        ShellRead { out: o + s, quoted: true, escaped: false }),
    decreases s.len(),
{
    let st = ShellRead { out: o, quoted: true, escaped: false };
    if s.len() == 0 {
        assert(o + s =~= o);
    } else {
        let t = s.drop_last();
        let c = s.last();
        lemma_shell_read_escaped(o, t);
        let mid = ShellRead { out: o + t, quoted: true, escaped: false };
        if c == '\'' {
            let q = seq!['\'', '\\', '\'', '\''];
            lemma_shell_read_concat(st, escape_quotes(t), q);
            reveal_with_fuel(shell_read_from, 5);
            assert(q.drop_last().drop_last().drop_last().drop_last() =~= Seq::<char>::empty());
            assert(q.drop_last().drop_last().drop_last() =~= seq!['\'']);
            assert(q.drop_last().drop_last() =~= seq!['\'', '\\']);
            assert(q.drop_last() =~= seq!['\'', '\\', '\'']);
            assert((o + t).push('\'') =~= o + s);
            assert(shell_read_from(mid, q) =~= ShellRead { out: o + s, quoted: true, escaped: false });
        } else {
            let e = escape_quotes(t);
            assert(escape_quotes(s) == e.push(c));
            assert(e.push(c).drop_last() =~= e);
            assert(shell_read_from(st, e.push(c)) == shell_step(shell_read_from(st, e), c));
            assert((o + t).push(c) =~= o + s);
            assert(shell_step(mid, c) =~= ShellRead { out: o + s, quoted: true, escaped: false });
        }
    }
}

/// A shell reading the quoted form of any value gets that value back, with
/// every quote closed.
pub proof fn lemma_shell_quote_round_trip(s: Seq<char>)
    ensures
        shell_read(shell_quote_spec(s)) == (ShellRead { out: s, quoted: false, escaped: false }),
{
    if all_shell_safe(s) {
        lemma_shell_read_safe(s);
    } else {
        let init = ShellRead { out: seq![], quoted: false, escaped: false };
        let e = escape_quotes(s);
        let open = seq!['\''] + e;
        lemma_shell_read_concat(init, seq!['\''], e);
        assert(seq!['\''].drop_last() =~= Seq::<char>::empty());
        let after_open = shell_read_from(init, seq!['\'']);
        assert(seq!['\''].last() == '\'');
        assert(shell_read_from(init, Seq::<char>::empty()) == init);
        assert(after_open == shell_step(shell_read_from(init, Seq::<char>::empty()), '\''));
        assert(after_open =~= ShellRead { out: seq![], quoted: true, escaped: false });
        lemma_shell_read_escaped(seq![], s);
        assert(Seq::<char>::empty() + s =~= s);
        assert(shell_read_from(init, open) == ShellRead { out: s, quoted: true, escaped: false });
        assert((open + seq!['\'']).drop_last() =~= open);
        assert(shell_quote_spec(s) == open + seq!['\'']);
        assert(shell_read(shell_quote_spec(s)) == shell_step(shell_read_from(init, open), '\''));
    }
}

/// The characters a POSIX shell reads literally in an unquoted word, and the
/// only ones shown without quotes: ASCII letters and digits and `- _ . / : = +`.
/// Everything else (space, `$`, `&`, `?`, `*`, `;`, `|`, quotes, ...) is not.
pub open spec fn is_plain_word_char(c: char) -> bool {
    let u = c as u32;
    ||| ('a' as u32) <= u && u <= ('z' as u32)
    ||| ('A' as u32) <= u && u <= ('Z' as u32)
    ||| ('0' as u32) <= u && u <= ('9' as u32)
    ||| c == '-'
    ||| c == '_'
    ||| c == '.'
    ||| c == '/'
    ||| c == ':'
    ||| c == '='
    ||| c == '+'
}

/// A value made only of plain word characters is shown as it is; a value
/// holding any other character is shown in single quotes, and a shell reads
/// it back as the value.
pub proof fn lemma_shell_quote_when_quoted(s: Seq<char>)
    ensures
        (forall|i: int| 0 <= i < s.len() ==> is_plain_word_char(#[trigger] s[i]))
            ==> shell_quote_spec(s) == s,
        (exists|i: int| 0 <= i < s.len() && !is_plain_word_char(#[trigger] s[i])) ==> {
            let q = shell_quote_spec(s);
            &&& q.len() >= 2
            &&& q[0] == '\''
            &&& q[q.len() - 1] == '\''
            &&& shell_read(q) == (ShellRead { out: s, quoted: false, escaped: false })
        },
{
    assert forall|c: char| #[trigger] is_shell_safe(c) <==> is_plain_word_char(c) by {}
    lemma_shell_quote_round_trip(s);
    if exists|i: int| 0 <= i < s.len() && !is_plain_word_char(#[trigger] s[i]) {
        let i = choose|i: int| 0 <= i < s.len() && !is_plain_word_char(#[trigger] s[i]);
        assert(!is_shell_safe(s[i]));
        let q = shell_quote_spec(s);
        assert(q == seq!['\''] + escape_quotes(s) + seq!['\'']);
    }
}

/// Whether the shell, in state `st`, reads `c` harmlessly: inside single
/// quotes anything goes; outside them only a shell-safe character, a quote or
/// a backslash, and a backslash escapes nothing but a quote. Nothing is then
/// open to word splitting or to parameter, command, tilde or glob expansion.
pub open spec fn read_ok(st: ShellRead, c: char) -> bool {
    !st.quoted ==> if st.escaped {
        c == '\''
    } else {
        is_plain_word_char(c) || c == '\'' || c == '\\'
    }
}

/// Whether every character of `q`, read from state `st`, is read harmlessly.
pub open spec fn reads_safely_from(st: ShellRead, q: Seq<char>) -> bool
    decreases q.len(),
{
    q.len() == 0 || (reads_safely_from(st, q.drop_last()) && read_ok(
        shell_read_from(st, q.drop_last()),
        q.last(),
    ))
}

proof fn lemma_reads_safely_concat(st: ShellRead, a: Seq<char>, b: Seq<char>)
    ensures
        reads_safely_from(st, a + b) == (reads_safely_from(st, a) && reads_safely_from(
            shell_read_from(st, a),
            b,
        )),
    decreases b.len(),
{
    if b.len() == 0 {
        assert(a + b =~= a);
    } else {
        lemma_reads_safely_concat(st, a, b.drop_last());
        assert((a + b).drop_last() =~= a + b.drop_last());
        assert((a + b).last() == b.last());
        lemma_shell_read_concat(st, a, b.drop_last());
    }
}

proof fn lemma_reads_safely_safe(s: Seq<char>)
    requires
        all_shell_safe(s),
    ensures
        reads_safely_from(ShellRead { out: seq![], quoted: false, escaped: false }, s),
    decreases s.len(),
{
    if s.len() > 0 {
        let t = s.drop_last();
        assert(all_shell_safe(t)) by {
            assert forall|i: int| 0 <= i < t.len() implies is_shell_safe(#[trigger] t[i]) by {
                assert(t[i] == s[i]);
            }
        }
        lemma_reads_safely_safe(t);
        lemma_shell_read_safe(t);
        assert(is_shell_safe(s[s.len() - 1]));
        assert(is_plain_word_char(s[s.len() - 1]));
    }
}

proof fn lemma_reads_safely_escaped(o: Seq<char>, s: Seq<char>)
    ensures
        reads_safely_from(ShellRead { out: o, quoted: true, escaped: false }, escape_quotes(s)),
    decreases s.len(),
{
    let st = ShellRead { out: o, quoted: true, escaped: false };
    if s.len() > 0 {
        let t = s.drop_last();
        let c = s.last();
        lemma_reads_safely_escaped(o, t);
        lemma_shell_read_escaped(o, t);
        let mid = ShellRead { out: o + t, quoted: true, escaped: false };
        if c == '\'' {
            let q = seq!['\'', '\\', '\'', '\''];
            lemma_reads_safely_concat(st, escape_quotes(t), q);
            reveal_with_fuel(shell_read_from, 5);
            reveal_with_fuel(reads_safely_from, 5);
            assert(q.drop_last().drop_last().drop_last().drop_last() =~= Seq::<char>::empty());
            assert(q.drop_last().drop_last().drop_last() =~= seq!['\'']);
            assert(q.drop_last().drop_last() =~= seq!['\'', '\\']);
            assert(q.drop_last() =~= seq!['\'', '\\', '\'']);
            assert(reads_safely_from(mid, q));
        } else {
            let e = escape_quotes(t);
            assert(escape_quotes(s) == e.push(c));
            assert(e.push(c).drop_last() =~= e);
        }
    }
}

/// The quoted form of any value is read harmlessly by the shell (see
/// [`read_ok`]), and a non-empty value gives a non-empty word: the shell sees
/// exactly one argument, with no expansion.
pub proof fn lemma_shell_quote_no_expansion(s: Seq<char>)
    ensures
        reads_safely_from(ShellRead { out: seq![], quoted: false, escaped: false }, shell_quote_spec(s)),
        s.len() > 0 ==> shell_quote_spec(s).len() > 0,
{
    if all_shell_safe(s) {
        lemma_reads_safely_safe(s);
    } else {
        let init = ShellRead { out: seq![], quoted: false, escaped: false };
        let e = escape_quotes(s);
        let open = seq!['\''] + e;
        lemma_reads_safely_concat(init, seq!['\''], e);
        lemma_shell_read_concat(init, seq!['\''], e);
        assert(seq!['\''].drop_last() =~= Seq::<char>::empty());
        assert(seq!['\''].last() == '\'');
        assert(shell_read_from(init, Seq::<char>::empty()) == init);
        assert(reads_safely_from(init, Seq::<char>::empty()));
        assert(reads_safely_from(init, seq!['\'']));
        let after_open = shell_read_from(init, seq!['\'']);
        assert(after_open == shell_step(shell_read_from(init, Seq::<char>::empty()), '\''));
        assert(after_open =~= ShellRead { out: seq![], quoted: true, escaped: false });
        lemma_reads_safely_escaped(seq![], s);
        lemma_shell_read_escaped(seq![], s);
        assert(reads_safely_from(init, open));
        assert((open + seq!['\'']).drop_last() =~= open);
        assert(shell_quote_spec(s) == open + seq!['\'']);
        assert(shell_read_from(init, open).quoted);
    }
}

// ---------------------------------------------------------------------------
// The curl command preview
pub open spec fn quote_all(xs: Seq<Seq<char>>) -> Seq<Seq<char>> {
    xs.map_values(|x: Seq<char>| shell_quote_spec(x))
}

/// The words of the curl command that reproduces a request.
pub open spec fn preview_words(c: ConfigSpec) -> Seq<Seq<char>> {
    seq!["curl"@, "-X"@, shell_quote_spec(c.method), shell_quote_spec(c.url)] + flag_pairs(
        "-H"@,
        quote_all(c.headers),
    ) + flag_pairs("--data-raw"@, quote_all(c.data)) + quote_all(c.passthrough)
}

/// `words` separated by single spaces.
pub open spec fn join_words(words: Seq<Seq<char>>) -> Seq<char>
    decreases words.len(),
{
    if words.len() == 0 {
        seq![]
    } else if words.len() == 1 {
        words[0]
    } else {
        join_words(words.drop_last()) + seq![' '] + words.last()
    }
}

fn push_quoted_pairs(parts: &mut Vec<String>, flag: &str, xs: &Vec<String>)
    ensures
        final(parts).deep_view() == old(parts).deep_view() + flag_pairs(
            flag@,
            quote_all(xs.deep_view()),
        ),
{
    let ghost qv = quote_all(xs.deep_view());
    let mut i: usize = 0;
    while i < xs.len()
        invariant
            qv == quote_all(xs.deep_view()),
            i <= xs.len(),
            parts.deep_view() == old(parts).deep_view() + flag_pairs(flag@, qv.take(i as int)),
        decreases xs.len() - i,
    {
        let ghost prev = parts.deep_view();
        parts.push(flag.to_owned());
        parts.push(shell_quote(xs[i].as_str()));
        i = i + 1;
        assert(qv.take(i as int).drop_last() =~= qv.take(i - 1));
        assert(xs.deep_view()[i - 1] == xs[i - 1]@);
        assert(parts.deep_view() =~= prev + seq![flag@, qv[i - 1]]);
    }
    assert(qv.take(xs.len() as int) =~= qv);
}

/// The curl command line that reproduces a request, with each argument quoted
/// for the shell.
pub fn curl_preview(config: &Config) -> (r: String)
    ensures
        r@ == join_words(preview_words(config@)),
{
    let mut parts: Vec<String> = Vec::new();
    parts.push("curl".to_owned());
    parts.push("-X".to_owned());
    parts.push(shell_quote(config.method.as_str()));
    parts.push(shell_quote(config.url.as_str()));
    assert(parts.deep_view() =~= seq![
        "curl"@,
        "-X"@,
        shell_quote_spec(config@.method),
        shell_quote_spec(config@.url),
    ]);
    push_quoted_pairs(&mut parts, "-H", &config.headers);
    push_quoted_pairs(&mut parts, "--data-raw", &config.data);
    let ghost before = parts.deep_view();
    let ghost qp = quote_all(config.passthrough.deep_view());
    let mut i: usize = 0;
    while i < config.passthrough.len()
        invariant
            qp == quote_all(config.passthrough.deep_view()),
            i <= config.passthrough.len(),
            parts.deep_view() == before + qp.take(i as int),
        decreases config.passthrough.len() - i,
    {
        let ghost prev = parts.deep_view();
        parts.push(shell_quote(config.passthrough[i].as_str()));
        i = i + 1;
        assert(config.passthrough.deep_view()[i - 1] == config.passthrough[i - 1]@);
        assert(parts.deep_view() =~= prev.push(qp[i - 1]));
        assert(qp.take(i as int) =~= qp.take(i - 1).push(qp[i - 1]));
    }
    assert(qp.take(i as int) =~= qp);
    assert(parts.deep_view() =~= preview_words(config@));
    join(&parts)
}

/// `parts` separated by single spaces.
fn join(parts: &Vec<String>) -> (r: String)
    ensures
        r@ == join_words(parts.deep_view()),
{
    let ghost pv = parts.deep_view();
    let mut out = String::new();
    let mut i: usize = 0;
    while i < parts.len()
        invariant
            pv == parts.deep_view(),
            i <= parts.len(),
            out@ == join_words(pv.take(i as int)),
        decreases parts.len() - i,
    {
        if i > 0 {
            push_char(&mut out, ' ');
        }
        out.append(parts[i].as_str());
        i = i + 1;
        assert(pv.take(i as int).drop_last() =~= pv.take(i - 1));
        assert(pv[i - 1] == parts[i - 1]@);
        if i == 1 {
            assert(out@ =~= join_words(pv.take(i as int)));
        }
    }
    assert(pv.take(parts.len() as int) =~= pv);
    out
}

// ---------------------------------------------------------------------------
// Field formatters
/// curl's HTTP version as shown: `HTTP/1.0`, `HTTP/1.1`, `HTTP/2`, `HTTP/3`
/// for the versions curl writes, `-` when there is none, `HTTP/<value>` otherwise.
pub open spec fn http_version_spec(v: Seq<char>) -> Seq<char> {
    if v == "1"@ || v == "1.0"@ {
        "HTTP/1.0"@
    } else if v == "1.1"@ {
        "HTTP/1.1"@
    } else if v == "2"@ || v == "2.0"@ {
        "HTTP/2"@
    } else if v == "3"@ || v == "3.0"@ {
        "HTTP/3"@
    } else if v.len() == 0 {
        "-"@
    } else {
        "HTTP/"@ + v
    }
}

/// See [`http_version_spec`].
pub fn format_http_version(value: &str) -> (r: String)
    ensures
        r@ == http_version_spec(value@),
{
    if str_eq(value, "1") || str_eq(value, "1.0") {
        "HTTP/1.0".to_owned()
    } else if str_eq(value, "1.1") {
        "HTTP/1.1".to_owned()
    } else if str_eq(value, "2") || str_eq(value, "2.0") {
        "HTTP/2".to_owned()
    } else if str_eq(value, "3") || str_eq(value, "3.0") {
        "HTTP/3".to_owned()
    } else if value.is_empty() {
        "-".to_owned()
    } else {
        let mut r = "HTTP/".to_owned();
        r.append(value);
        r
    }
}

/// An address as shown: `-` without an IP, the IP alone without a port,
/// `ip:port` otherwise.
pub open spec fn origin_spec(ip: Seq<char>, port: Seq<char>) -> Seq<char> {
    if ip.len() == 0 {
        "-"@
    } else if port.len() == 0 {
        ip
    } else {
        ip + ":"@ + port
    }
}

/// See [`origin_spec`].
pub fn format_origin(ip: &str, port: &str) -> (r: String)
    ensures
        r@ == origin_spec(ip@, port@),
{
    if ip.is_empty() {
        "-".to_owned()
    } else if port.is_empty() {
        ip.to_owned()
    } else {
        let mut r = ip.to_owned();
        r.append(":");
        r.append(port);
        r
    }
}

/// A value as shown: `-` when it is empty.
pub open spec fn dash_spec(v: Seq<char>) -> Seq<char> {
    if v.len() == 0 {
        "-"@
    } else {
        v
    }
}

/// See [`dash_spec`].
pub fn empty_dash<'a>(value: &'a str) -> (r: &'a str)
    ensures
        r@ == dash_spec(value@),
{
    if value.is_empty() {
        "-"
    } else {
        value
    }
}

// ---------------------------------------------------------------------------
// Indented text
/// A line without the carriage return of a `\r\n` ending.
pub open spec fn strip_cr(l: Seq<char>) -> Seq<char> {
    if l.len() > 0 && l.last() == '\r' {
        l.drop_last()
    } else {
        l
    }
}

/// `str::lines`: the lines of `s`, split at `\n` or `\r\n`; a final line
/// ending adds no empty line.
pub open spec fn text_lines(s: Seq<char>) -> Seq<Seq<char>>
    decreases s.len(),
{
    if s.len() == 0 {
        seq![]
    } else {
        match find_char(s, '\n', 0) {
            None => seq![s],
            Some(t) => {
                proof {
                    lemma_find_char_bounds(s, '\n', 0);
                }
                seq![strip_cr(s.take(t))] + text_lines(s.skip(t + 1))
            },
        }
    }
}

pub proof fn lemma_find_char_bounds(s: Seq<char>, c: char, i: int)
    requires
        0 <= i,
    ensures
        find_char(s, c, i) matches Some(t) ==> i <= t < s.len() && s[t] == c,
    decreases s.len() - i,
{
    if i < s.len() && s[i] != c {
        lemma_find_char_bounds(s, c, i + 1);
    }
}

/// Each line preceded by `pad` and followed by a newline.
pub open spec fn indented(lines: Seq<Seq<char>>, pad: Seq<char>) -> Seq<char>
    decreases lines.len(),
{
    if lines.len() == 0 {
        seq![]
    } else {
        pad + lines[0] + seq!['\n'] + indented(lines.drop_first(), pad)
    }
}

/// Writes each line of `text` to `out`, indented by `spaces` spaces.
pub fn write_indented(out: &mut String, text: &str, spaces: usize)
    ensures
        final(out)@ == old(out)@ + indented(text_lines(text@), repeat(' ', spaces as nat)),
{
    let v = to_chars(text);
    let ghost pad = repeat(' ', spaces as nat);
    let ghost whole = old(out)@ + indented(text_lines(text@), pad);
    let mut pos: usize = 0;
    assert(v@.skip(0) =~= v@);
    assert(out@ + indented(text_lines(v@.skip(0)), pad) == whole);
    while pos < v.len()
        invariant
            v@ == text@,
            pos <= v.len(),
            pad == repeat(' ', spaces as nat),
            out@ + indented(text_lines(v@.skip(pos as int)), pad) == whole,
        decreases v.len() - pos,
    {
        let ghost rest = v@.skip(pos as int);
        let ghost before = out@;
        proof {
            lemma_find_char_shift(v@, '\n', pos as int, pos as int);
        }
        let (end, next) = match find_from(&v, '\n', pos) {
            Some(t) => (t, t + 1),
            None => (v.len(), v.len()),
        };
        let line_end = if end > pos && v[end - 1] == '\r' && next > end {
            end - 1
        } else {
            end
        };
        crate::text::push_repeat(out, ' ', spaces);
        push_chars(out, &v, pos, line_end);
        push_char(out, '\n');
        proof {
            let line = if next > end {
                strip_cr(rest.take(end - pos))
            } else {
                rest
            };
            assert(rest.take(end - pos) =~= v@.subrange(pos as int, end as int));
            if next > end {
                if end > pos && v@[end - 1] == '\r' {
                    assert(rest.take(end - pos).drop_last() =~= v@.subrange(
                        pos as int,
                        line_end as int,
                    ));
                }
                assert(rest.skip(end - pos + 1) =~= v@.skip(next as int));
            } else {
                assert(rest =~= v@.subrange(pos as int, end as int));
                assert(v@.skip(next as int) =~= Seq::<char>::empty());
            }
            assert(line == v@.subrange(pos as int, line_end as int));
            assert(text_lines(rest) == seq![line] + text_lines(v@.skip(next as int)));
            assert((seq![line] + text_lines(v@.skip(next as int))).drop_first() =~= text_lines(
                v@.skip(next as int),
            ));
            assert(out@ =~= before + pad + line + seq!['\n']);
        }
        pos = next;
    }
    assert(text_lines(v@.skip(pos as int)) =~= Seq::<Seq<char>>::empty());
}

// ---------------------------------------------------------------------------
// The report
/// A section title on a line of its own.
pub open spec fn section_line(en: bool, title: Seq<char>) -> Seq<char> {
    painted(en, BOLD_CYAN@, title) + seq!['\n']
}

/// `  <label> <value>` on a line of its own.
pub open spec fn field_line(en: bool, label: Seq<char>, value: Seq<char>) -> Seq<char> {
    "  "@ + painted(en, DIM@, label) + " "@ + value + seq!['\n']
}

/// `  <label>` on a line of its own.
pub open spec fn title_line(en: bool, label: Seq<char>) -> Seq<char> {
    "  "@ + painted(en, DIM@, label) + seq!['\n']
}

/// A body as shown: coloured token by token when colour is on and it looks like JSON.
pub open spec fn shown_body(en: bool, text: Seq<char>) -> Seq<char> {
    if en && looks_like_json(text) {
        colorize_from(text, 0, true)
    } else {
        text
    }
}

pub open spec fn header_lines(en: bool, hs: Seq<Seq<char>>) -> Seq<char>
    decreases hs.len(),
{
    if hs.len() == 0 {
        seq![]
    } else {
        header_lines(en, hs.drop_last()) + "    "@ + painted(en, MAGENTA@, hs.last()) + seq!['\n']
    }
}

pub open spec fn data_lines(en: bool, ds: Seq<Seq<char>>) -> Seq<char>
    decreases ds.len(),
{
    if ds.len() == 0 {
        seq![]
    } else {
        data_lines(en, ds.drop_last()) + indented(
            text_lines(shown_body(en, format_body_spec(ds.last()))),
            repeat(' ', 4),
        )
    }
}

pub open spec fn request_head(c: ConfigSpec, en: bool) -> Seq<char> {
    section_line(en, "Request"@) + field_line(en, "Method:"@, painted(en, method_code(c.method), c.method))
        + field_line(en, "URL:"@, painted(en, CYAN@, c.url)) + field_line(
        en,
        "Curl:"@,
        painted(en, DIM@, join_words(preview_words(c))),
    )
}

pub open spec fn headers_part(hs: Seq<Seq<char>>, en: bool) -> Seq<char> {
    if hs.len() > 0 {
        title_line(en, "Headers:"@) + header_lines(en, hs)
    } else {
        seq![]
    }
}

pub open spec fn data_part(ds: Seq<Seq<char>>, en: bool) -> Seq<char> {
    if ds.len() > 0 {
        title_line(en, "Body:"@) + data_lines(en, ds)
    } else {
        seq![]
    }
}

/// The request section: method, URL, the curl command, then the headers and
/// the request bodies when there are any.
pub open spec fn request_part(c: ConfigSpec, en: bool) -> Seq<char> {
    request_head(c, en) + headers_part(c.headers, en) + data_part(c.data, en)
}

/// The trace section: curl's metadata, one field per line. `millis` is the
/// total time in milliseconds, already formatted.
pub open spec fn trace_part(m: CurlMeta, en: bool, millis: Seq<char>) -> Seq<char> {
    section_line(en, "Trace"@) + field_line(en, "Status:"@, painted(en, status_code(m.status@), m.status@))
        + field_line(en, "HTTP version:"@, http_version_spec(m.http_version@)) + field_line(
        en,
        "Time:"@,
        millis + " ms"@,
    ) + field_line(en, "Origin:"@, origin_spec(m.remote_ip@, m.remote_port@)) + field_line(
        en,
        "Local:"@,
        origin_spec(m.local_ip@, m.local_port@),
    ) + field_line(en, "Effective URL:"@, painted(en, CYAN@, dash_spec(m.url_effective@)))
        + field_line(en, "Redirects:"@, dash_spec(m.num_redirects@)) + field_line(
        en,
        "Downloaded:"@,
        dash_spec(m.size_download@) + " bytes"@,
    ) + field_line(en, "Content-Type:"@, dash_spec(m.content_type@))
}

/// The whole report: the request, a blank line, the trace, a blank line, and the response body.
pub open spec fn report_spec(
    c: ConfigSpec,
    body: Seq<char>,
    m: CurlMeta,
    en: bool,
    millis: Seq<char>,
) -> Seq<char> {
    request_part(c, en) + seq!['\n'] + trace_part(m, en, millis) + seq!['\n'] + section_line(
        en,
        "Response"@,
    ) + indented(text_lines(shown_body(en, format_body_spec(body))), repeat(' ', 0))
}

fn push_section(out: &mut String, color: Color, title: &str)
    ensures
        final(out)@ == old(out)@ + section_line(color.enabled, title@),
{
    let t = color.section(title);
    out.append(t.as_str());
    push_char(out, '\n');
}

fn push_field(out: &mut String, color: Color, label: &str, value: &str)
    ensures
        final(out)@ == old(out)@ + field_line(color.enabled, label@, value@),
{
    out.append("  ");
    let l = color.label(label);
    out.append(l.as_str());
    out.append(" ");
    out.append(value);
    push_char(out, '\n');
    assert(out@ =~= old(out)@ + field_line(color.enabled, label@, value@));
}

fn push_title(out: &mut String, color: Color, label: &str)
    ensures
        final(out)@ == old(out)@ + title_line(color.enabled, label@),
{
    out.append("  ");
    let l = color.label(label);
    out.append(l.as_str());
    push_char(out, '\n');
    assert(out@ =~= old(out)@ + title_line(color.enabled, label@));
}

fn push_request_head(out: &mut String, config: &Config, color: Color)
    ensures
        final(out)@ == old(out)@ + request_head(config@, color.enabled),
{
    push_section(out, color, "Request");
    let m = color.method(config.method.as_str());
    push_field(out, color, "Method:", m.as_str());
    let u = color.url(config.url.as_str());
    push_field(out, color, "URL:", u.as_str());
    let preview = curl_preview(config);
    let p = color.command(preview.as_str());
    push_field(out, color, "Curl:", p.as_str());
    assert(out@ =~= old(out)@ + request_head(config@, color.enabled));
}

fn push_headers(out: &mut String, headers: &Vec<String>, color: Color)
    ensures
        final(out)@ == old(out)@ + headers_part(headers.deep_view(), color.enabled),
{
    let en = color.enabled;
    let ghost hv = headers.deep_view();
    if headers.len() == 0 {
        assert(out@ =~= old(out)@ + headers_part(hv, en));
        return ;
    }
    push_title(out, color, "Headers:");
    let ghost base = out@;
    let mut i: usize = 0;
    while i < headers.len()
        invariant
            hv == headers.deep_view(),
            en == color.enabled,
            i <= headers.len(),
            out@ == base + header_lines(en, hv.take(i as int)),
        decreases headers.len() - i,
    {
        let ghost prev = out@;
        out.append("    ");
        let h = color.header(headers[i].as_str());
        out.append(h.as_str());
        push_char(out, '\n');
        i = i + 1;
        assert(hv.take(i as int).drop_last() =~= hv.take(i - 1));
        assert(hv[i - 1] == headers[i - 1]@);
        assert(out@ =~= prev + "    "@ + painted(en, MAGENTA@, hv[i - 1]) + seq!['\n']);
    }
    assert(hv.take(i as int) =~= hv);
    assert(out@ =~= old(out)@ + headers_part(hv, en));
}

fn push_data(out: &mut String, data: &Vec<String>, color: Color)
    ensures
        final(out)@ == old(out)@ + data_part(data.deep_view(), color.enabled),
{
    let en = color.enabled;
    let ghost dv = data.deep_view();
    if data.len() == 0 {
        assert(out@ =~= old(out)@ + data_part(dv, en));
        return ;
    }
    push_title(out, color, "Body:");
    let ghost base = out@;
    let mut i: usize = 0;
    while i < data.len()
        invariant
            dv == data.deep_view(),
            en == color.enabled,
            i <= data.len(),
            out@ == base + data_lines(en, dv.take(i as int)),
        decreases data.len() - i,
    {
        let ghost prev = out@;
        let formatted = format_body(data[i].as_str());
        let shown = color.body(formatted.as_str());
        write_indented(out, shown.as_str(), 4);
        i = i + 1;
        assert(dv.take(i as int).drop_last() =~= dv.take(i - 1));
        assert(dv[i - 1] == data[i - 1]@);
        assert(out@ =~= prev + indented(
            text_lines(shown_body(en, format_body_spec(dv[i - 1]))),
            repeat(' ', 4),
        ));
    }
    assert(dv.take(i as int) =~= dv);
    assert(out@ =~= old(out)@ + data_part(dv, en));
}

fn push_request(out: &mut String, config: &Config, color: Color)
    ensures
        final(out)@ == old(out)@ + request_part(config@, color.enabled),
{
    push_request_head(out, config, color);
    push_headers(out, &config.headers, color);
    push_data(out, &config.data, color);
    assert(out@ =~= old(out)@ + request_part(config@, color.enabled));
}

fn push_trace(out: &mut String, meta: &CurlMeta, color: Color, millis: &str)
    ensures
        final(out)@ == old(out)@ + trace_part(*meta, color.enabled, millis@),
{
    push_section(out, color, "Trace");
    let st = color.status(meta.status.as_str());
    push_field(out, color, "Status:", st.as_str());
    let hv = format_http_version(meta.http_version.as_str());
    push_field(out, color, "HTTP version:", hv.as_str());
    let mut time = millis.to_owned();
    time.append(" ms");
    push_field(out, color, "Time:", time.as_str());
    let origin = format_origin(meta.remote_ip.as_str(), meta.remote_port.as_str());
    push_field(out, color, "Origin:", origin.as_str());
    let local = format_origin(meta.local_ip.as_str(), meta.local_port.as_str());
    push_field(out, color, "Local:", local.as_str());
    let eff = color.url(empty_dash(meta.url_effective.as_str()));
    push_field(out, color, "Effective URL:", eff.as_str());
    push_field(out, color, "Redirects:", empty_dash(meta.num_redirects.as_str()));
    let mut size = empty_dash(meta.size_download.as_str()).to_owned();
    size.append(" bytes");
    push_field(out, color, "Downloaded:", size.as_str());
    push_field(out, color, "Content-Type:", empty_dash(meta.content_type.as_str()));
    assert(out@ =~= old(out)@ + trace_part(*meta, color.enabled, millis@));
}

/// The trace report for a request, curl's response `body` and metadata, and
/// the total time `millis` (in milliseconds, already formatted).
pub fn render_report(config: &Config, body: &str, meta: &CurlMeta, color: Color, millis: &str) -> (r:
    String)
    ensures
        r@ == report_spec(config@, body@, *meta, color.enabled, millis@),
{
    let mut out = String::new();
    push_request(&mut out, config, color);
    push_char(&mut out, '\n');
    push_trace(&mut out, meta, color, millis);
    push_char(&mut out, '\n');
    push_section(&mut out, color, "Response");
    let formatted = format_body(body);
    let shown = color.body(formatted.as_str());
    write_indented(&mut out, shown.as_str(), 0);
    assert(out@ =~= report_spec(config@, body@, *meta, color.enabled, millis@));
    out
}

/// The line a request header takes in the report.
pub open spec fn header_line(en: bool, h: Seq<char>) -> Seq<char> {
    "    "@ + painted(en, MAGENTA@, h) + seq!['\n']
}

proof fn lemma_header_lines_flatten(en: bool, hs: Seq<Seq<char>>)
    ensures
        header_lines(en, hs) == hs.map_values(|h: Seq<char>| header_line(en, h)).flatten(),
    decreases hs.len(),
{
    let f = |h: Seq<char>| header_line(en, h);
    if hs.len() > 0 {
        lemma_header_lines_flatten(en, hs.drop_last());
        let m = hs.map_values(f);
        assert(m =~= hs.drop_last().map_values(f).push(header_line(en, hs.last())));
        hs.drop_last().map_values(f).lemma_flatten_push(header_line(en, hs.last()));
        assert(header_lines(en, hs) =~= header_lines(en, hs.drop_last()) + header_line(en, hs.last()));
    } else {
        assert(hs.map_values(f) =~= Seq::<Seq<char>>::empty());
    }
}

/// The report lists every request header, in order, one per line under the
/// `Headers:` title that follows the request's method, URL and curl command.
pub proof fn lemma_report_lists_headers(
    c: ConfigSpec,
    body: Seq<char>,
    m: CurlMeta,
    en: bool,
    millis: Seq<char>,
)
    requires
        c.headers.len() > 0,
    ensures
        (request_head(c, en) + title_line(en, "Headers:"@) + c.headers.map_values(
            |h: Seq<char>| header_line(en, h),
        ).flatten()).is_prefix_of(report_spec(c, body, m, en, millis)),
{
    lemma_header_lines_flatten(en, c.headers);
    let x = request_head(c, en) + title_line(en, "Headers:"@) + header_lines(en, c.headers);
    let r = report_spec(c, body, m, en, millis);
    let tail = data_part(c.data, en) + seq!['\n'] + trace_part(m, en, millis) + seq!['\n']
        + section_line(en, "Response"@) + indented(
        text_lines(shown_body(en, format_body_spec(body))),
        repeat(' ', 0),
    );
    assert(r =~= x + tail);
    assert(r.take(x.len() as int) =~= x);
}

/// How a request body is shown in the report: formatted, coloured when it
/// looks like JSON, and indented by four spaces.
pub open spec fn data_block(en: bool, d: Seq<char>) -> Seq<char> {
    indented(text_lines(shown_body(en, format_body_spec(d))), repeat(' ', 4))
}

proof fn lemma_data_lines_flatten(en: bool, ds: Seq<Seq<char>>)
    ensures
        data_lines(en, ds) == ds.map_values(|d: Seq<char>| data_block(en, d)).flatten(),
    decreases ds.len(),
{
    let f = |d: Seq<char>| data_block(en, d);
    if ds.len() > 0 {
        lemma_data_lines_flatten(en, ds.drop_last());
        assert(ds.map_values(f) =~= ds.drop_last().map_values(f).push(data_block(en, ds.last())));
        ds.drop_last().map_values(f).lemma_flatten_push(data_block(en, ds.last()));
    } else {
        assert(ds.map_values(f) =~= Seq::<Seq<char>>::empty());
    }
}

/// The report shows every request body, in order, under the `Body:` title
/// that follows the headers.
pub proof fn lemma_report_lists_bodies(
    c: ConfigSpec,
    body: Seq<char>,
    m: CurlMeta,
    en: bool,
    millis: Seq<char>,
)
    requires
        c.data.len() > 0,
    ensures
        (request_head(c, en) + headers_part(c.headers, en) + title_line(en, "Body:"@)
            + c.data.map_values(|d: Seq<char>| data_block(en, d)).flatten()).is_prefix_of(
            report_spec(c, body, m, en, millis),
        ),
{
    lemma_data_lines_flatten(en, c.data);
    let x = request_head(c, en) + headers_part(c.headers, en) + title_line(en, "Body:"@)
        + data_lines(en, c.data);
    let r = report_spec(c, body, m, en, millis);
    let tail = seq!['\n'] + trace_part(m, en, millis) + seq!['\n'] + section_line(
        en,
        "Response"@,
    ) + indented(text_lines(shown_body(en, format_body_spec(body))), repeat(' ', 0));
    assert(r =~= x + tail);
    assert(r.take(x.len() as int) =~= x);
}

/// The curl command shown in the report quotes every argument for the shell:
/// `curl -X` with the method and URL, `-H` before each header, `--data-raw`
/// before each body, then the options handed on.
pub proof fn lemma_preview_words(c: ConfigSpec)
    ensures
        preview_words(c) == seq!["curl"@, "-X"@, shell_quote_spec(c.method), shell_quote_spec(c.url)]
            + c.headers.map_values(|h: Seq<char>| seq!["-H"@, shell_quote_spec(h)]).flatten()
            + c.data.map_values(|d: Seq<char>| seq!["--data-raw"@, shell_quote_spec(d)]).flatten()
            + c.passthrough.map_values(|a: Seq<char>| shell_quote_spec(a)),
{
    crate::curl::lemma_flag_pairs_flatten("-H"@, quote_all(c.headers));
    crate::curl::lemma_flag_pairs_flatten("--data-raw"@, quote_all(c.data));
    assert(quote_all(c.headers).map_values(|x: Seq<char>| seq!["-H"@, x]) =~= c.headers.map_values(
        |h: Seq<char>| seq!["-H"@, shell_quote_spec(h)],
    ));
    assert(quote_all(c.data).map_values(|x: Seq<char>| seq!["--data-raw"@, x]) =~= c.data.map_values(
        |d: Seq<char>| seq!["--data-raw"@, shell_quote_spec(d)],
    ));
}

/// A line followed by its newline.
pub open spec fn with_newline(l: Seq<char>) -> Seq<char> {
    l + seq!['\n']
}

proof fn lemma_find_char_none(s: Seq<char>, c: char, i: int)
    requires
        0 <= i,
        find_char(s, c, i) is None,
    ensures
        forall|j: int| i <= j < s.len() ==> s[j] != c,
    decreases s.len() - i,
{
    if i < s.len() {
        lemma_find_char_none(s, c, i + 1);
    }
}

/// Splitting a text without carriage returns into lines loses nothing: the
/// lines, each with a newline after it, give the text back, with a final
/// newline added when it had none.
pub proof fn lemma_lines_rejoin(s: Seq<char>)
    requires
        !s.contains('\r'),
    ensures
        text_lines(s).map_values(|l: Seq<char>| with_newline(l)).flatten() == if s.len() == 0
            || s.last() == '\n' {
            s
        } else {
            s + seq!['\n']
        },
    decreases s.len(),
{
    let f = |l: Seq<char>| with_newline(l);
    if s.len() == 0 {
        assert(text_lines(s).map_values(f) =~= Seq::<Seq<char>>::empty());
    } else {
        match find_char(s, '\n', 0) {
            None => {
                lemma_find_char_none(s, '\n', 0);
                let m = text_lines(s).map_values(f);
                assert(m =~= seq![with_newline(s)]);
                m.lemma_flatten_singleton();
                assert(s.last() != '\n');
            },
            Some(t) => {
                lemma_find_char_bounds(s, '\n', 0);
                let head = s.take(t);
                let rest = s.skip(t + 1);
                assert(!head.contains('\r')) by {
                    if head.contains('\r') {
                        let x = choose|x: int| 0 <= x < head.len() && head[x] == '\r';
                        assert(s[x] == '\r');
                    }
                }
                assert(!rest.contains('\r')) by {
                    if rest.contains('\r') {
                        let x = choose|x: int| 0 <= x < rest.len() && rest[x] == '\r';
                        assert(s[t + 1 + x] == '\r');
                    }
                }
                assert(head.len() == 0 || head.last() != '\r') by {
                    if head.len() > 0 {
                        assert(head.last() == s[t - 1]);
                        if s[t - 1] == '\r' {
                            assert(s.contains('\r'));
                        }
                    }
                }
                assert(strip_cr(head) == head);
                lemma_lines_rejoin(rest);
                let m = text_lines(s).map_values(f);
                assert(m =~= seq![with_newline(head)] + text_lines(rest).map_values(f));
                assert(m.drop_first() =~= text_lines(rest).map_values(f));
                assert(m.flatten() == m[0] + m.drop_first().flatten());
                if rest.len() == 0 {
                    assert(s =~= head + seq!['\n']);
                } else {
                    assert(rest.last() == s.last());
                    if s.last() == '\n' {
                        assert(s =~= with_newline(head) + rest);
                    } else {
                        assert(s + seq!['\n'] =~= with_newline(head) + (rest + seq!['\n']));
                    }
                }
            },
        }
    }
}

} // verus!
