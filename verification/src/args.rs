//! The command line: `tracer [<method>] <url> [options] [-- <curl args>]`.
use vstd::prelude::*;

use crate::text::{
    eq_ignore_ascii_case, eq_ignore_case, starts_with, str_eq, to_ascii_uppercase, to_chars,
    to_upper,
};

verus! {

pub const USAGE: &'static str = "usage:
  tracer <method> <url> [-H 'Header: value']... [-d DATA]... [-- <curl args>...]
  tracer <url> [-H 'Header: value']... [-d DATA]...

examples:
  tracer post https://httpbin.org/post -H 'Content-Type: application/json' -d '{\"hello\":\"world\"}'
  tracer get https://api.github.com -- -L --max-time 10";

/// A request to trace, as the command line gave it.
#[derive(Debug)]
pub struct Config {
    pub method: String,
    pub url: String,
    pub headers: Vec<String>,
    pub data: Vec<String>,
    /// Options handed on to curl as they are.
    pub passthrough: Vec<String>,
    /// Where, in the argument list, the arguments after `--` begin (the list's
    /// length when there is no `--`). They end `passthrough`, in order.
    pub tail_start: usize,
}

/// The mathematical form of a [`Config`].
pub struct ConfigSpec {
    pub method: Seq<char>,
    pub url: Seq<char>,
    pub headers: Seq<Seq<char>>,
    pub data: Seq<Seq<char>>,
    pub passthrough: Seq<Seq<char>>,
    pub tail_start: nat,
}

impl View for Config {
    type V = ConfigSpec;

    open spec fn view(&self) -> ConfigSpec {
        ConfigSpec {
            method: self.method@,
            url: self.url@,
            headers: self.headers.deep_view(),
            data: self.data.deep_view(),
            passthrough: self.passthrough.deep_view(),
            tail_start: self.tail_start as nat,
        }
    }
}

/// Whether `v` names one of the supported HTTP methods, in any ASCII case.
pub open spec fn is_method_spec(v: Seq<char>) -> bool {
    ||| eq_ignore_case(v, "GET"@)
    ||| eq_ignore_case(v, "POST"@)
    ||| eq_ignore_case(v, "PUT"@)
    ||| eq_ignore_case(v, "PATCH"@)
    ||| eq_ignore_case(v, "DELETE"@)
    ||| eq_ignore_case(v, "HEAD"@)
    ||| eq_ignore_case(v, "OPTIONS"@)
    ||| eq_ignore_case(v, "TRACE"@)
}

pub open spec fn looks_like_url_spec(v: Seq<char>) -> bool {
    "http://"@.is_prefix_of(v) || "https://"@.is_prefix_of(v)
}

/// Curl options without a value that are handed on to curl.
pub open spec fn is_flag_option(a: Seq<char>) -> bool {
    ||| a == "-k"@
    ||| a == "--insecure"@
    ||| a == "-L"@
    ||| a == "--location"@
    ||| a == "--compressed"@
    ||| a == "--http1.0"@
    ||| a == "--http1.1"@
    ||| a == "--http2"@
    ||| a == "--http2-prior-knowledge"@
    ||| a == "--http3"@
}

/// Curl options with a value that are handed on to curl.
pub open spec fn is_value_option(a: Seq<char>) -> bool {
    ||| a == "-u"@
    ||| a == "--user"@
    ||| a == "-A"@
    ||| a == "--user-agent"@
    ||| a == "-b"@
    ||| a == "--cookie"@
    ||| a == "--connect-timeout"@
    ||| a == "--max-time"@
    ||| a == "--proxy"@
    ||| a == "-F"@
    ||| a == "--form"@
}

pub open spec fn is_header_option(a: Seq<char>) -> bool {
    a == "-H"@ || a == "--header"@
}

pub open spec fn is_data_option(a: Seq<char>) -> bool {
    a == "-d"@ || a == "--data"@ || a == "--data-raw"@
}

pub open spec fn missing_value(name: Seq<char>) -> Seq<char> {
    "missing value for "@ + name
}

pub open spec fn unsupported_option(arg: Seq<char>) -> Seq<char> {
    "unsupported option `"@ + arg + "`; pass raw curl options after `--`"@
}

pub open spec fn unexpected_argument(arg: Seq<char>) -> Seq<char> {
    "unexpected argument `"@ + arg + "`"@
}

pub open spec fn not_method_or_url(first: Seq<char>) -> Seq<char> {
    "expected an HTTP method or URL, got `"@ + first + "`\n\n"@ + USAGE@
}

/// The options from `args[i]` on, added to `acc`: headers and data with their
/// values (as separate arguments or glued to `-H`/`-d`), curl options handed
/// on with their values, and everything after `--` handed on as it is.
pub open spec fn parse_options(args: Seq<Seq<char>>, i: int, acc: ConfigSpec) -> Result<
    ConfigSpec,
    Seq<char>,
>
    decreases args.len() - i,
{
    if i < 0 || i >= args.len() {
        Ok(ConfigSpec { tail_start: args.len(), ..acc })
    } else {
        let a = args[i];
        if a == "--"@ {
            Ok(
                ConfigSpec {
                    passthrough: acc.passthrough + args.skip(i + 1),
                    tail_start: (i + 1) as nat,
                    ..acc
                },
            )
        } else if is_header_option(a) {
            if i + 1 < args.len() {
                parse_options(args, i + 2, ConfigSpec { headers: acc.headers.push(args[i + 1]), ..acc })
            } else {
                Err(missing_value(a))
            }
        } else if is_data_option(a) {
            if i + 1 < args.len() {
                parse_options(args, i + 2, ConfigSpec { data: acc.data.push(args[i + 1]), ..acc })
            } else {
                Err(missing_value(a))
            }
        } else if is_flag_option(a) {
            parse_options(args, i + 1, ConfigSpec { passthrough: acc.passthrough.push(a), ..acc })
        } else if is_value_option(a) {
            if i + 1 < args.len() {
                parse_options(
                    args,
                    i + 2,
                    ConfigSpec { passthrough: acc.passthrough.push(a).push(args[i + 1]), ..acc },
                )
            } else {
                Err(missing_value(a))
            }
        } else if "-H"@.is_prefix_of(a) && a.len() > 2 {
            parse_options(args, i + 1, ConfigSpec { headers: acc.headers.push(a.skip(2)), ..acc })
        } else if "-d"@.is_prefix_of(a) && a.len() > 2 {
            parse_options(args, i + 1, ConfigSpec { data: acc.data.push(a.skip(2)), ..acc })
        } else if a.len() > 0 && a[0] == '-' {
            Err(unsupported_option(a))
        } else {
            Err(unexpected_argument(a))
        }
    }
}

pub open spec fn empty_config(method: Seq<char>, url: Seq<char>) -> ConfigSpec {
    ConfigSpec {
        method,
        url,
        headers: seq![],
        data: seq![],
        passthrough: seq![],
        tail_start: 0,
    }
}

/// The request a command line asks for, or the message that refuses it. The
/// first argument is a method (any ASCII case; it is upper-cased) followed by
/// the URL, or a URL alone, which means `GET`. `-h` and `--help` give the usage.
pub open spec fn parse_args_spec(args: Seq<Seq<char>>) -> Result<ConfigSpec, Seq<char>> {
    if args.len() == 0 {
        Err(USAGE@)
    } else {
        let first = args[0];
        if first == "-h"@ || first == "--help"@ {
            Err(USAGE@)
        } else if is_method_spec(first) {
            if args.len() < 2 {
                Err(missing_value("url"@))
            } else {
                parse_options(args, 2, empty_config(to_upper(first), args[1]))
            }
        } else if looks_like_url_spec(first) {
            parse_options(args, 1, empty_config("GET"@, first))
        } else {
            Err(not_method_or_url(first))
        }
    }
}

/// The usage text.
pub fn usage() -> (r: String)
    ensures
        r@ == USAGE@,
{
    USAGE.to_owned()
}

/// Whether `value` names a supported HTTP method, in any ASCII case.
pub fn is_method(value: &str) -> (r: bool)
    ensures
        r == is_method_spec(value@),
{
    eq_ignore_ascii_case(value, "GET") || eq_ignore_ascii_case(value, "POST")
        || eq_ignore_ascii_case(value, "PUT") || eq_ignore_ascii_case(value, "PATCH")
        || eq_ignore_ascii_case(value, "DELETE") || eq_ignore_ascii_case(value, "HEAD")
        || eq_ignore_ascii_case(value, "OPTIONS") || eq_ignore_ascii_case(value, "TRACE")
}

/// Whether `value` starts with `http://` or `https://`.
pub fn looks_like_url(value: &str) -> (r: bool)
    ensures
        r == looks_like_url_spec(value@),
{
    starts_with(value, "http://") || starts_with(value, "https://")
}

fn error_text(pre: &str, middle: &str, post: &str) -> (r: String)
    ensures
        r@ == pre@ + middle@ + post@,
{
    let mut r = pre.to_owned();
    r.append(middle);
    r.append(post);
    r
}

/// The argument at `*index`, which then moves past it; or the message that it is missing.
pub fn next_value(args: &Vec<String>, index: &mut usize, name: &str) -> (r: Result<String, String>)
    ensures
        *old(index) < args.len() ==> (r matches Ok(v) && v@ == args[*old(index) as int]@
            && *final(index) == *old(index) + 1),
        *old(index) >= args.len() ==> (r matches Err(e) && e@ == missing_value(name@)
            && *final(index) == *old(index)),
{
    if *index < args.len() {
        let value = args[*index].clone();
        *index = *index + 1;
        Ok(value)
    } else {
        let mut msg = "missing value for ".to_owned();
        msg.append(name);
        Err(msg)
    }
}

fn is_flag(a: &str) -> (r: bool)
    ensures
        r == is_flag_option(a@),
{
    str_eq(a, "-k") || str_eq(a, "--insecure") || str_eq(a, "-L") || str_eq(a, "--location")
        || str_eq(a, "--compressed") || str_eq(a, "--http1.0") || str_eq(a, "--http1.1")
        || str_eq(a, "--http2") || str_eq(a, "--http2-prior-knowledge") || str_eq(a, "--http3")
}

fn takes_value(a: &str) -> (r: bool)
    ensures
        r == is_value_option(a@),
{
    str_eq(a, "-u") || str_eq(a, "--user") || str_eq(a, "-A") || str_eq(a, "--user-agent")
        || str_eq(a, "-b") || str_eq(a, "--cookie") || str_eq(a, "--connect-timeout") || str_eq(
        a,
        "--max-time",
    ) || str_eq(a, "--proxy") || str_eq(a, "-F") || str_eq(a, "--form")
}

fn starts_with_dash(a: &str) -> (r: bool)
    ensures
        r == (a@.len() > 0 && a@[0] == '-'),
{
    let v = to_chars(a);
    v.len() > 0 && v[0] == '-'
}

/// `a` without its first two characters.
fn after_two(a: &str) -> (r: String)
    requires
        a@.len() >= 2,
    ensures
        r@ == a@.skip(2),
{
    let v = to_chars(a);
    crate::text::string_of(&v, 2, v.len())
}

/// The request a command line asks for (see [`parse_args_spec`]).
pub fn parse_args(args: Vec<String>) -> (r: Result<Config, String>)
    ensures
        match r {
            Ok(c) => parse_args_spec(args.deep_view()) == Ok::<ConfigSpec, Seq<char>>(c@),
            Err(e) => parse_args_spec(args.deep_view()) == Err::<ConfigSpec, Seq<char>>(e@),
        },
{
    let ghost av = args.deep_view();
    let n = args.len();
    if n == 0 {
        return Err(usage());
    }
    let mut index: usize = 0;
    let first = args[index].clone();
    assert(first@ == av[0]);
    if str_eq(first.as_str(), "-h") || str_eq(first.as_str(), "--help") {
        return Err(usage());
    }
    let method;
    let url;
    if is_method(first.as_str()) {
        index = index + 1;
        url = match next_value(&args, &mut index, "url") {
            Ok(v) => v,
            Err(e) => {
                return Err(e);
            },
        };
        method = to_ascii_uppercase(first.as_str());
    } else if looks_like_url(first.as_str()) {
        index = index + 1;
        method = "GET".to_owned();
        url = first;
    } else {
        let mut msg = error_text("expected an HTTP method or URL, got `", first.as_str(), "`\n\n");
        msg.append(USAGE);
        return Err(msg);
    }
    let ghost start = index as int;
    let ghost init = empty_config(method@, url@);
    assert(parse_args_spec(av) == parse_options(av, start, init));
    let mut headers: Vec<String> = Vec::new();
    let mut data: Vec<String> = Vec::new();
    let mut passthrough: Vec<String> = Vec::new();
    assert(headers.deep_view() =~= Seq::<Seq<char>>::empty());
    assert(data.deep_view() =~= Seq::<Seq<char>>::empty());
    assert(passthrough.deep_view() =~= Seq::<Seq<char>>::empty());
    while index < n
        invariant
            av == args.deep_view(),
            n == args.len(),
            1 <= index,
            parse_args_spec(av) == parse_options(
                av,
                index as int,
                ConfigSpec {
                    method: method@,
                    url: url@,
                    headers: headers.deep_view(),
                    data: data.deep_view(),
                    passthrough: passthrough.deep_view(),
                    tail_start: 0,
                },
            ),
        decreases n - index,
    {
        let arg = args[index].clone();
        let a = arg.as_str();
        assert(a@ == av[index as int]);
        let ghost acc = ConfigSpec {
            method: method@,
            url: url@,
            headers: headers.deep_view(),
            data: data.deep_view(),
            passthrough: passthrough.deep_view(),
            tail_start: 0,
        };
        if str_eq(a, "--") {
            let mut j: usize = index + 1;
            let ghost before = passthrough.deep_view();
            while j < n
                invariant
                    av == args.deep_view(),
                    n == args.len(),
                    index + 1 <= j <= n,
                    passthrough.deep_view() == before + av.subrange(index + 1, j as int),
                decreases n - j,
            {
                let ghost prev = passthrough.deep_view();
                passthrough.push(args[j].clone());
                j = j + 1;
                assert(passthrough.deep_view() =~= prev.push(av[j - 1]));
                assert(av.subrange(index + 1, j as int) =~= av.subrange(index + 1, j - 1).push(
                    av[j - 1],
                ));
            }
            assert(av.subrange(index + 1, n as int) =~= av.skip(index + 1));
            return Ok(
                Config { method, url, headers, data, passthrough, tail_start: index + 1 },
            );
        } else if str_eq(a, "-H") || str_eq(a, "--header") {
            index = index + 1;
            match next_value(&args, &mut index, a) {
                Ok(v) => {
                    let ghost prev = headers.deep_view();
                    headers.push(v);
                    assert(headers.deep_view() =~= prev.push(av[index - 1]));
                },
                Err(e) => {
                    return Err(e);
                },
            }
        } else if str_eq(a, "-d") || str_eq(a, "--data") || str_eq(a, "--data-raw") {
            index = index + 1;
            match next_value(&args, &mut index, a) {
                Ok(v) => {
                    let ghost prev = data.deep_view();
                    data.push(v);
                    assert(data.deep_view() =~= prev.push(av[index - 1]));
                },
                Err(e) => {
                    return Err(e);
                },
            }
        } else if is_flag(a) {
            let ghost prev = passthrough.deep_view();
            passthrough.push(arg.clone());
            index = index + 1;
            assert(passthrough.deep_view() =~= prev.push(av[index - 1]));
        } else if takes_value(a) {
            let ghost prev = passthrough.deep_view();
            passthrough.push(arg.clone());
            index = index + 1;
            match next_value(&args, &mut index, a) {
                Ok(v) => {
                    passthrough.push(v);
                    assert(passthrough.deep_view() =~= prev.push(av[index - 2]).push(
                        av[index - 1],
                    ));
                },
                Err(e) => {
                    return Err(e);
                },
            }
        } else if starts_with(a, "-H") && to_chars(a).len() > 2 {
            let ghost prev = headers.deep_view();
            headers.push(after_two(a));
            index = index + 1;
            assert(headers.deep_view() =~= prev.push(av[index - 1].skip(2)));
        } else if starts_with(a, "-d") && to_chars(a).len() > 2 {
            let ghost prev = data.deep_view();
            data.push(after_two(a));
            index = index + 1;
            assert(data.deep_view() =~= prev.push(av[index - 1].skip(2)));
        } else if starts_with_dash(a) {
            return Err(error_text("unsupported option `", a, "`; pass raw curl options after `--`"));
        } else {
            return Err(error_text("unexpected argument `", a, "`"));
        }
    }
    Ok(Config { method, url, headers, data, passthrough, tail_start: n })
}

proof fn lemma_options_keep_tail(args: Seq<Seq<char>>, i: int, acc: ConfigSpec)
    requires
        0 <= i,
    ensures
        parse_options(args, i, acc) matches Ok(c) ==> {
            &&& c.tail_start <= args.len()
            &&& args.len() - c.tail_start <= c.passthrough.len()
            &&& c.passthrough.skip(c.passthrough.len() - (args.len() - c.tail_start))
                == args.skip(c.tail_start as int)
            &&& c.method == acc.method
            &&& c.url == acc.url
        },
    decreases args.len() - i,
{
    if i < args.len() {
        let a = args[i];
        if a == "--"@ {
            let c = ConfigSpec {
                passthrough: acc.passthrough + args.skip(i + 1),
                tail_start: (i + 1) as nat,
                ..acc
            };
            assert(c.passthrough.skip(c.passthrough.len() - (args.len() - c.tail_start)) =~= args.skip(
                i + 1,
            ));
        } else if is_header_option(a) {
            if i + 1 < args.len() {
                lemma_options_keep_tail(args, i + 2, ConfigSpec { headers: acc.headers.push(args[i + 1]), ..acc });
            }
        } else if is_data_option(a) {
            if i + 1 < args.len() {
                lemma_options_keep_tail(args, i + 2, ConfigSpec { data: acc.data.push(args[i + 1]), ..acc });
            }
        } else if is_flag_option(a) {
            lemma_options_keep_tail(args, i + 1, ConfigSpec { passthrough: acc.passthrough.push(a), ..acc });
        } else if is_value_option(a) {
            if i + 1 < args.len() {
                lemma_options_keep_tail(
                    args,
                    i + 2,
                    ConfigSpec { passthrough: acc.passthrough.push(a).push(args[i + 1]), ..acc },
                );
            }
        } else if "-H"@.is_prefix_of(a) && a.len() > 2 {
            lemma_options_keep_tail(args, i + 1, ConfigSpec { headers: acc.headers.push(a.skip(2)), ..acc });
        } else if "-d"@.is_prefix_of(a) && a.len() > 2 {
            lemma_options_keep_tail(args, i + 1, ConfigSpec { data: acc.data.push(a.skip(2)), ..acc });
        }
    } else {
        let c = ConfigSpec { tail_start: args.len(), ..acc };
        assert(c.passthrough.skip(c.passthrough.len() as int) =~= args.skip(args.len() as int));
    }
}

/// Every argument after `--` is handed on to curl as it is: the accepted
/// request's passthrough options end with exactly the arguments from
/// `tail_start` on (none when there is no `--`).
pub proof fn lemma_parse_keeps_tail(args: Seq<Seq<char>>)
    ensures
        parse_args_spec(args) matches Ok(c) ==> {
            &&& c.tail_start <= args.len()
            &&& args.len() - c.tail_start <= c.passthrough.len()
            &&& c.passthrough.skip(c.passthrough.len() - (args.len() - c.tail_start))
                == args.skip(c.tail_start as int)
        },
{
    if args.len() > 0 {
        let first = args[0];
        if is_method_spec(first) && args.len() >= 2 {
            lemma_options_keep_tail(args, 2, empty_config(to_upper(first), args[1]));
        } else if looks_like_url_spec(first) {
            lemma_options_keep_tail(args, 1, empty_config("GET"@, first));
        }
    }
}

/// A URL alone asks for `GET` of that URL; a method name first is upper-cased
/// and the URL is the argument after it.
pub proof fn lemma_parse_method_and_url(args: Seq<Seq<char>>)
    ensures
        parse_args_spec(args) matches Ok(c) ==> (if is_method_spec(args[0]) && args[0] != "-h"@
            && args[0] != "--help"@ {
            c.method == to_upper(args[0]) && c.url == args[1]
        } else {
            c.method == "GET"@ && c.url == args[0]
        }),
{
    if args.len() > 0 {
        let first = args[0];
        if is_method_spec(first) && args.len() >= 2 {
            lemma_options_keep_tail(args, 2, empty_config(to_upper(first), args[1]));
        } else if looks_like_url_spec(first) {
            lemma_options_keep_tail(args, 1, empty_config("GET"@, first));
        }
    }
}

/// `args` extended by `--` and `rest`.
pub open spec fn with_tail(args: Seq<Seq<char>>, rest: Seq<Seq<char>>) -> Seq<Seq<char>> {
    args + seq!["--"@] + rest
}

proof fn lemma_options_with_tail(
    p: Seq<Seq<char>>,
    rest: Seq<Seq<char>>,
    i: int,
    acc: ConfigSpec,
)
    requires
        0 <= i <= p.len(),
        forall|j: int| 0 <= j < p.len() ==> p[j] != "--"@,
    ensures
        parse_options(p, i, acc) matches Ok(c) ==> parse_options(with_tail(p, rest), i, acc) == Ok::<
            ConfigSpec,
            Seq<char>,
        >(ConfigSpec { passthrough: c.passthrough + rest, tail_start: (p.len() + 1) as nat, ..c }),
    decreases p.len() - i,
{
    let q = with_tail(p, rest);
    assert(q[p.len() as int] == "--"@);
    assert(q.skip(p.len() + 1int) =~= rest);
    if i < p.len() {
        let a = p[i];
        assert(q[i] == a);
        if i + 1 < p.len() {
            assert(q[i + 1] == p[i + 1]);
        }
        if is_header_option(a) {
            if i + 1 < p.len() {
                lemma_options_with_tail(p, rest, i + 2, ConfigSpec { headers: acc.headers.push(p[i + 1]), ..acc });
            }
        } else if is_data_option(a) {
            if i + 1 < p.len() {
                lemma_options_with_tail(p, rest, i + 2, ConfigSpec { data: acc.data.push(p[i + 1]), ..acc });
            }
        } else if is_flag_option(a) {
            lemma_options_with_tail(p, rest, i + 1, ConfigSpec { passthrough: acc.passthrough.push(a), ..acc });
        } else if is_value_option(a) {
            if i + 1 < p.len() {
                lemma_options_with_tail(
                    p,
                    rest,
                    i + 2,
                    ConfigSpec { passthrough: acc.passthrough.push(a).push(p[i + 1]), ..acc },
                );
            }
        } else if "-H"@.is_prefix_of(a) && a.len() > 2 {
            lemma_options_with_tail(p, rest, i + 1, ConfigSpec { headers: acc.headers.push(a.skip(2)), ..acc });
        } else if "-d"@.is_prefix_of(a) && a.len() > 2 {
            lemma_options_with_tail(p, rest, i + 1, ConfigSpec { data: acc.data.push(a.skip(2)), ..acc });
        }
    }
}

/// Appending `--` and any arguments to an accepted command line (that has no
/// `--` of its own) keeps the request and hands those arguments on to curl
/// unchanged, whatever they look like.
pub proof fn lemma_parse_appends_tail(p: Seq<Seq<char>>, rest: Seq<Seq<char>>)
    requires
        forall|j: int| 0 <= j < p.len() ==> p[j] != "--"@,
    ensures
        parse_args_spec(p) matches Ok(c) ==> parse_args_spec(with_tail(p, rest)) == Ok::<
            ConfigSpec,
            Seq<char>,
        >(ConfigSpec { passthrough: c.passthrough + rest, tail_start: (p.len() + 1) as nat, ..c }),
{
    let q = with_tail(p, rest);
    if p.len() > 0 {
        let first = p[0];
        assert(q[0] == first);
        if p.len() >= 2 {
            assert(q[1] == p[1]);
        }
        if is_method_spec(first) && p.len() >= 2 {
            lemma_options_with_tail(p, rest, 2, empty_config(to_upper(first), p[1]));
        } else if looks_like_url_spec(first) {
            lemma_options_with_tail(p, rest, 1, empty_config("GET"@, first));
        }
    }
}

proof fn lemma_options_prefix(p: Seq<Seq<char>>, x: Seq<Seq<char>>, i: int, acc: ConfigSpec)
    requires
        0 <= i <= p.len(),
        forall|j: int| 0 <= j < p.len() ==> p[j] != "--"@,
    ensures
        parse_options(p, i, acc) matches Ok(c) ==> parse_options(p + x, i, acc) == parse_options(
            p + x,
            p.len() as int,
            c,
        ),
    decreases p.len() - i,
{
    let q = p + x;
    if i < p.len() {
        let a = p[i];
        assert(q[i] == a);
        if i + 1 < p.len() {
            assert(q[i + 1] == p[i + 1]);
        }
        if is_header_option(a) {
            if i + 1 < p.len() {
                lemma_options_prefix(p, x, i + 2, ConfigSpec { headers: acc.headers.push(p[i + 1]), ..acc });
            }
        } else if is_data_option(a) {
            if i + 1 < p.len() {
                lemma_options_prefix(p, x, i + 2, ConfigSpec { data: acc.data.push(p[i + 1]), ..acc });
            }
        } else if is_flag_option(a) {
            lemma_options_prefix(p, x, i + 1, ConfigSpec { passthrough: acc.passthrough.push(a), ..acc });
        } else if is_value_option(a) {
            if i + 1 < p.len() {
                lemma_options_prefix(
                    p,
                    x,
                    i + 2,
                    ConfigSpec { passthrough: acc.passthrough.push(a).push(p[i + 1]), ..acc },
                );
            }
        } else if "-H"@.is_prefix_of(a) && a.len() > 2 {
            lemma_options_prefix(p, x, i + 1, ConfigSpec { headers: acc.headers.push(a.skip(2)), ..acc });
        } else if "-d"@.is_prefix_of(a) && a.len() > 2 {
            lemma_options_prefix(p, x, i + 1, ConfigSpec { data: acc.data.push(a.skip(2)), ..acc });
        }
    } else {
        assert(parse_options(p, i, acc) == Ok::<ConfigSpec, Seq<char>>(
            ConfigSpec { tail_start: p.len(), ..acc },
        ));
        lemma_options_ignore_tail(q, i, acc, p.len());
    }
}

proof fn lemma_options_ignore_tail(args: Seq<Seq<char>>, i: int, acc: ConfigSpec, t: nat)
    ensures
        parse_options(args, i, acc) == parse_options(args, i, ConfigSpec { tail_start: t, ..acc }),
    decreases args.len() - i,
{
    if 0 <= i < args.len() {
        let a = args[i];
        if a == "--"@ {
        } else if is_header_option(a) {
            if i + 1 < args.len() {
                lemma_options_ignore_tail(args, i + 2, ConfigSpec { headers: acc.headers.push(args[i + 1]), ..acc }, t);
            }
        } else if is_data_option(a) {
            if i + 1 < args.len() {
                lemma_options_ignore_tail(args, i + 2, ConfigSpec { data: acc.data.push(args[i + 1]), ..acc }, t);
            }
        } else if is_flag_option(a) {
            lemma_options_ignore_tail(args, i + 1, ConfigSpec { passthrough: acc.passthrough.push(a), ..acc }, t);
        } else if is_value_option(a) {
            if i + 1 < args.len() {
                lemma_options_ignore_tail(
                    args,
                    i + 2,
                    ConfigSpec { passthrough: acc.passthrough.push(a).push(args[i + 1]), ..acc },
                    t,
                );
            }
        } else if "-H"@.is_prefix_of(a) && a.len() > 2 {
            lemma_options_ignore_tail(args, i + 1, ConfigSpec { headers: acc.headers.push(a.skip(2)), ..acc }, t);
        } else if "-d"@.is_prefix_of(a) && a.len() > 2 {
            lemma_options_ignore_tail(args, i + 1, ConfigSpec { data: acc.data.push(a.skip(2)), ..acc }, t);
        }
    }
}

proof fn lemma_parse_prefix(p: Seq<Seq<char>>, x: Seq<Seq<char>>)
    requires
        forall|j: int| 0 <= j < p.len() ==> p[j] != "--"@,
    ensures
        parse_args_spec(p) matches Ok(c) ==> parse_args_spec(p + x) == parse_options(
            p + x,
            p.len() as int,
            c,
        ),
{
    let q = p + x;
    if p.len() > 0 {
        let first = p[0];
        assert(q[0] == first);
        if p.len() >= 2 {
            assert(q[1] == p[1]);
        }
        if is_method_spec(first) && p.len() >= 2 {
            lemma_options_prefix(p, x, 2, empty_config(to_upper(first), p[1]));
        } else if looks_like_url_spec(first) {
            lemma_options_prefix(p, x, 1, empty_config("GET"@, first));
        }
    }
}

/// The curl options handed on together with their value.
pub open spec fn is_curl_option_with_value(o: Seq<char>) -> bool {
    ||| o == "-u"@
    ||| o == "--user"@
    ||| o == "-A"@
    ||| o == "--user-agent"@
    ||| o == "-b"@
    ||| o == "--cookie"@
    ||| o == "--connect-timeout"@
    ||| o == "--max-time"@
    ||| o == "--proxy"@
    ||| o == "-F"@
    ||| o == "--form"@
}

/// The curl options handed on alone.
pub open spec fn is_curl_flag(o: Seq<char>) -> bool {
    ||| o == "-k"@
    ||| o == "--insecure"@
    ||| o == "-L"@
    ||| o == "--location"@
    ||| o == "--compressed"@
    ||| o == "--http1.0"@
    ||| o == "--http1.1"@
    ||| o == "--http2"@
    ||| o == "--http2-prior-knowledge"@
    ||| o == "--http3"@
}

proof fn lemma_option_kinds(o: Seq<char>)
    ensures
        is_curl_option_with_value(o) ==> is_value_option(o) && !is_flag_option(o)
            && !is_header_option(o) && !is_data_option(o) && o != "--"@,
        is_curl_flag(o) ==> is_flag_option(o) && !is_header_option(o) && !is_data_option(o) && o
            != "--"@,
        (o == "-H"@ || o == "--header"@) ==> is_header_option(o) && o != "--"@,
        (o == "-d"@ || o == "--data"@ || o == "--data-raw"@) ==> is_data_option(o)
            && !is_header_option(o) && o != "--"@,
{
    reveal_strlit("--");
    assert("--"@.len() == 2);
    assert("--"@[0] == '-');
    assert("--"@[1] == '-');
    reveal_strlit("-H");
    assert("-H"@.len() == 2);
    assert("-H"@[0] == '-');
    assert("-H"@[1] == 'H');
    reveal_strlit("--header");
    assert("--header"@.len() == 8);
    assert("--header"@[0] == '-');
    assert("--header"@[1] == '-');
    assert("--header"@[2] == 'h');
    assert("--header"@[3] == 'e');
    assert("--header"@[4] == 'a');
    assert("--header"@[5] == 'd');
    assert("--header"@[6] == 'e');
    assert("--header"@[7] == 'r');
    reveal_strlit("-d");
    assert("-d"@.len() == 2);
    assert("-d"@[0] == '-');
    assert("-d"@[1] == 'd');
    reveal_strlit("--data");
    assert("--data"@.len() == 6);
    assert("--data"@[0] == '-');
    assert("--data"@[1] == '-');
    assert("--data"@[2] == 'd');
    assert("--data"@[3] == 'a');
    assert("--data"@[4] == 't');
    assert("--data"@[5] == 'a');
    reveal_strlit("--data-raw");
    assert("--data-raw"@.len() == 10);
    assert("--data-raw"@[0] == '-');
    assert("--data-raw"@[1] == '-');
    assert("--data-raw"@[2] == 'd');
    assert("--data-raw"@[3] == 'a');
    assert("--data-raw"@[4] == 't');
    assert("--data-raw"@[5] == 'a');
    assert("--data-raw"@[6] == '-');
    assert("--data-raw"@[7] == 'r');
    assert("--data-raw"@[8] == 'a');
    assert("--data-raw"@[9] == 'w');
    reveal_strlit("-k");
    assert("-k"@.len() == 2);
    assert("-k"@[0] == '-');
    assert("-k"@[1] == 'k');
    reveal_strlit("--insecure");
    assert("--insecure"@.len() == 10);
    assert("--insecure"@[0] == '-');
    assert("--insecure"@[1] == '-');
    assert("--insecure"@[2] == 'i');
    assert("--insecure"@[3] == 'n');
    assert("--insecure"@[4] == 's');
    assert("--insecure"@[5] == 'e');
    assert("--insecure"@[6] == 'c');
    assert("--insecure"@[7] == 'u');
    assert("--insecure"@[8] == 'r');
    assert("--insecure"@[9] == 'e');
    reveal_strlit("-L");
    assert("-L"@.len() == 2);
    assert("-L"@[0] == '-');
    assert("-L"@[1] == 'L');
    reveal_strlit("--location");
    assert("--location"@.len() == 10);
    assert("--location"@[0] == '-');
    assert("--location"@[1] == '-');
    assert("--location"@[2] == 'l');
    assert("--location"@[3] == 'o');
    assert("--location"@[4] == 'c');
    assert("--location"@[5] == 'a');
    assert("--location"@[6] == 't');
    assert("--location"@[7] == 'i');
    assert("--location"@[8] == 'o');
    assert("--location"@[9] == 'n');
    reveal_strlit("--compressed");
    assert("--compressed"@.len() == 12);
    assert("--compressed"@[0] == '-');
    assert("--compressed"@[1] == '-');
    assert("--compressed"@[2] == 'c');
    assert("--compressed"@[3] == 'o');
    assert("--compressed"@[4] == 'm');
    assert("--compressed"@[5] == 'p');
    assert("--compressed"@[6] == 'r');
    assert("--compressed"@[7] == 'e');
    assert("--compressed"@[8] == 's');
    assert("--compressed"@[9] == 's');
    assert("--compressed"@[10] == 'e');
    assert("--compressed"@[11] == 'd');
    reveal_strlit("--http1.0");
    assert("--http1.0"@.len() == 9);
    assert("--http1.0"@[0] == '-');
    assert("--http1.0"@[1] == '-');
    assert("--http1.0"@[2] == 'h');
    assert("--http1.0"@[3] == 't');
    assert("--http1.0"@[4] == 't');
    assert("--http1.0"@[5] == 'p');
    assert("--http1.0"@[6] == '1');
    assert("--http1.0"@[7] == '.');
    assert("--http1.0"@[8] == '0');
    reveal_strlit("--http1.1");
    assert("--http1.1"@.len() == 9);
    assert("--http1.1"@[0] == '-');
    assert("--http1.1"@[1] == '-');
    assert("--http1.1"@[2] == 'h');
    assert("--http1.1"@[3] == 't');
    assert("--http1.1"@[4] == 't');
    assert("--http1.1"@[5] == 'p');
    assert("--http1.1"@[6] == '1');
    assert("--http1.1"@[7] == '.');
    assert("--http1.1"@[8] == '1');
    reveal_strlit("--http2");
    assert("--http2"@.len() == 7);
    assert("--http2"@[0] == '-');
    assert("--http2"@[1] == '-');
    assert("--http2"@[2] == 'h');
    assert("--http2"@[3] == 't');
    assert("--http2"@[4] == 't');
    assert("--http2"@[5] == 'p');
    assert("--http2"@[6] == '2');
    reveal_strlit("--http2-prior-knowledge");
    assert("--http2-prior-knowledge"@.len() == 23);
    assert("--http2-prior-knowledge"@[0] == '-');
    assert("--http2-prior-knowledge"@[1] == '-');
    assert("--http2-prior-knowledge"@[2] == 'h');
    assert("--http2-prior-knowledge"@[3] == 't');
    assert("--http2-prior-knowledge"@[4] == 't');
    assert("--http2-prior-knowledge"@[5] == 'p');
    assert("--http2-prior-knowledge"@[6] == '2');
    assert("--http2-prior-knowledge"@[7] == '-');
    assert("--http2-prior-knowledge"@[8] == 'p');
    assert("--http2-prior-knowledge"@[9] == 'r');
    assert("--http2-prior-knowledge"@[10] == 'i');
    assert("--http2-prior-knowledge"@[11] == 'o');
    assert("--http2-prior-knowledge"@[12] == 'r');
    assert("--http2-prior-knowledge"@[13] == '-');
    assert("--http2-prior-knowledge"@[14] == 'k');
    assert("--http2-prior-knowledge"@[15] == 'n');
    assert("--http2-prior-knowledge"@[16] == 'o');
    assert("--http2-prior-knowledge"@[17] == 'w');
    assert("--http2-prior-knowledge"@[18] == 'l');
    assert("--http2-prior-knowledge"@[19] == 'e');
    assert("--http2-prior-knowledge"@[20] == 'd');
    assert("--http2-prior-knowledge"@[21] == 'g');
    assert("--http2-prior-knowledge"@[22] == 'e');
    reveal_strlit("--http3");
    assert("--http3"@.len() == 7);
    assert("--http3"@[0] == '-');
    assert("--http3"@[1] == '-');
    assert("--http3"@[2] == 'h');
    assert("--http3"@[3] == 't');
    assert("--http3"@[4] == 't');
    assert("--http3"@[5] == 'p');
    assert("--http3"@[6] == '3');
    reveal_strlit("-u");
    assert("-u"@.len() == 2);
    assert("-u"@[0] == '-');
    assert("-u"@[1] == 'u');
    reveal_strlit("--user");
    assert("--user"@.len() == 6);
    assert("--user"@[0] == '-');
    assert("--user"@[1] == '-');
    assert("--user"@[2] == 'u');
    assert("--user"@[3] == 's');
    assert("--user"@[4] == 'e');
    assert("--user"@[5] == 'r');
    reveal_strlit("-A");
    assert("-A"@.len() == 2);
    assert("-A"@[0] == '-');
    assert("-A"@[1] == 'A');
    reveal_strlit("--user-agent");
    assert("--user-agent"@.len() == 12);
    assert("--user-agent"@[0] == '-');
    assert("--user-agent"@[1] == '-');
    assert("--user-agent"@[2] == 'u');
    assert("--user-agent"@[3] == 's');
    assert("--user-agent"@[4] == 'e');
    assert("--user-agent"@[5] == 'r');
    assert("--user-agent"@[6] == '-');
    assert("--user-agent"@[7] == 'a');
    assert("--user-agent"@[8] == 'g');
    assert("--user-agent"@[9] == 'e');
    assert("--user-agent"@[10] == 'n');
    assert("--user-agent"@[11] == 't');
    reveal_strlit("-b");
    assert("-b"@.len() == 2);
    assert("-b"@[0] == '-');
    assert("-b"@[1] == 'b');
    reveal_strlit("--cookie");
    assert("--cookie"@.len() == 8);
    assert("--cookie"@[0] == '-');
    assert("--cookie"@[1] == '-');
    assert("--cookie"@[2] == 'c');
    assert("--cookie"@[3] == 'o');
    assert("--cookie"@[4] == 'o');
    assert("--cookie"@[5] == 'k');
    assert("--cookie"@[6] == 'i');
    assert("--cookie"@[7] == 'e');
    reveal_strlit("--connect-timeout");
    assert("--connect-timeout"@.len() == 17);
    assert("--connect-timeout"@[0] == '-');
    assert("--connect-timeout"@[1] == '-');
    assert("--connect-timeout"@[2] == 'c');
    assert("--connect-timeout"@[3] == 'o');
    assert("--connect-timeout"@[4] == 'n');
    assert("--connect-timeout"@[5] == 'n');
    assert("--connect-timeout"@[6] == 'e');
    assert("--connect-timeout"@[7] == 'c');
    assert("--connect-timeout"@[8] == 't');
    assert("--connect-timeout"@[9] == '-');
    assert("--connect-timeout"@[10] == 't');
    assert("--connect-timeout"@[11] == 'i');
    assert("--connect-timeout"@[12] == 'm');
    assert("--connect-timeout"@[13] == 'e');
    assert("--connect-timeout"@[14] == 'o');
    assert("--connect-timeout"@[15] == 'u');
    assert("--connect-timeout"@[16] == 't');
    reveal_strlit("--max-time");
    assert("--max-time"@.len() == 10);
    assert("--max-time"@[0] == '-');
    assert("--max-time"@[1] == '-');
    assert("--max-time"@[2] == 'm');
    assert("--max-time"@[3] == 'a');
    assert("--max-time"@[4] == 'x');
    assert("--max-time"@[5] == '-');
    assert("--max-time"@[6] == 't');
    assert("--max-time"@[7] == 'i');
    assert("--max-time"@[8] == 'm');
    assert("--max-time"@[9] == 'e');
    reveal_strlit("--proxy");
    assert("--proxy"@.len() == 7);
    assert("--proxy"@[0] == '-');
    assert("--proxy"@[1] == '-');
    assert("--proxy"@[2] == 'p');
    assert("--proxy"@[3] == 'r');
    assert("--proxy"@[4] == 'o');
    assert("--proxy"@[5] == 'x');
    assert("--proxy"@[6] == 'y');
    reveal_strlit("-F");
    assert("-F"@.len() == 2);
    assert("-F"@[0] == '-');
    assert("-F"@[1] == 'F');
    reveal_strlit("--form");
    assert("--form"@.len() == 6);
    assert("--form"@[0] == '-');
    assert("--form"@[1] == '-');
    assert("--form"@[2] == 'f');
    assert("--form"@[3] == 'o');
    assert("--form"@[4] == 'r');
    assert("--form"@[5] == 'm');
}

/// Each option the command line accepts, added with its value after an
/// accepted command line (that has no `--`), is kept: a curl option with a
/// value (`-u`, `--user`, `-A`, `--user-agent`, `-b`, `--cookie`,
/// `--connect-timeout`, `--max-time`, `--proxy`, `-F`, `--form`) is handed on
/// to curl with its value; a curl flag (`-k`, `--insecure`, `-L`,
/// `--location`, `--compressed`, `--http1.0`, `--http1.1`, `--http2`,
/// `--http2-prior-knowledge`, `--http3`) is handed on alone; `-H`/`--header`
/// adds a header and `-d`/`--data`/`--data-raw` a request body.
pub proof fn lemma_parse_accepts_options(p: Seq<Seq<char>>, o: Seq<char>, v: Seq<char>)
    requires
        forall|j: int| 0 <= j < p.len() ==> p[j] != "--"@,
    ensures
        parse_args_spec(p) matches Ok(c) ==> {
            &&& is_curl_option_with_value(o) ==> parse_args_spec(p + seq![o, v]) == Ok::<
                ConfigSpec,
                Seq<char>,
            >(
                ConfigSpec {
                    passthrough: c.passthrough + seq![o, v],
                    tail_start: (p.len() + 2) as nat,
                    ..c
                },
            )
            &&& is_curl_flag(o) ==> parse_args_spec(p + seq![o]) == Ok::<ConfigSpec, Seq<char>>(
                ConfigSpec {
                    passthrough: c.passthrough + seq![o],
                    tail_start: (p.len() + 1) as nat,
                    ..c
                },
            )
            &&& (o == "-H"@ || o == "--header"@) ==> parse_args_spec(p + seq![o, v]) == Ok::<
                ConfigSpec,
                Seq<char>,
            >(ConfigSpec { headers: c.headers.push(v), tail_start: (p.len() + 2) as nat, ..c })
            &&& (o == "-d"@ || o == "--data"@ || o == "--data-raw"@) ==> parse_args_spec(
                p + seq![o, v],
            ) == Ok::<ConfigSpec, Seq<char>>(
                ConfigSpec { data: c.data.push(v), tail_start: (p.len() + 2) as nat, ..c },
            )
        },
{
    lemma_option_kinds(o);
    lemma_parse_prefix(p, seq![o, v]);
    lemma_parse_prefix(p, seq![o]);
    let q2 = p + seq![o, v];
    let q1 = p + seq![o];
    assert(q2[p.len() as int] == o && q2[p.len() + 1int] == v);
    assert(q1[p.len() as int] == o);
    let n = p.len() as int;
    if let Ok(c) = parse_args_spec(p) {
        if is_curl_option_with_value(o) {
            let x = ConfigSpec { passthrough: c.passthrough.push(o).push(v), ..c };
            assert(parse_options(q2, n, c) == parse_options(q2, n + 2, x));
            assert(parse_options(q2, n + 2, x) == Ok::<ConfigSpec, Seq<char>>(
                ConfigSpec { tail_start: (n + 2) as nat, ..x },
            ));
            assert(c.passthrough.push(o).push(v) =~= c.passthrough + seq![o, v]);
        }
        if is_curl_flag(o) {
            let x = ConfigSpec { passthrough: c.passthrough.push(o), ..c };
            assert(parse_options(q1, n, c) == parse_options(q1, n + 1, x));
            assert(parse_options(q1, n + 1, x) == Ok::<ConfigSpec, Seq<char>>(
                ConfigSpec { tail_start: (n + 1) as nat, ..x },
            ));
            assert(c.passthrough.push(o) =~= c.passthrough + seq![o]);
        }
        if o == "-H"@ || o == "--header"@ {
            let x = ConfigSpec { headers: c.headers.push(v), ..c };
            assert(parse_options(q2, n, c) == parse_options(q2, n + 2, x));
            assert(parse_options(q2, n + 2, x) == Ok::<ConfigSpec, Seq<char>>(
                ConfigSpec { tail_start: (n + 2) as nat, ..x },
            ));
        }
        if o == "-d"@ || o == "--data"@ || o == "--data-raw"@ {
            let x = ConfigSpec { data: c.data.push(v), ..c };
            assert(parse_options(q2, n, c) == parse_options(q2, n + 2, x));
            assert(parse_options(q2, n + 2, x) == Ok::<ConfigSpec, Seq<char>>(
                ConfigSpec { tail_start: (n + 2) as nat, ..x },
            ));
        }
    }
}

} // verus!
