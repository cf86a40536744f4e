//! Terminal colours: when they are on, and how each kind of text is painted.
use vstd::prelude::*;

use crate::json::{colorize_json, colorize_from, looks_like_json, body_looks_like_json};
use crate::text::{eq_ignore_ascii_case, eq_ignore_case, str_eq, to_chars};

verus! {

pub const RESET: &'static str = "\x1b[0m";

pub const BOLD: &'static str = "\x1b[1m";

pub const DIM: &'static str = "\x1b[2m";

pub const CYAN: &'static str = "\x1b[36m";

pub const GREEN: &'static str = "\x1b[32m";

pub const YELLOW: &'static str = "\x1b[33m";

pub const MAGENTA: &'static str = "\x1b[35m";

pub const BOLD_BLUE: &'static str = "\x1b[1;34m";

pub const BOLD_CYAN: &'static str = "\x1b[1;36m";

pub const BOLD_GREEN: &'static str = "\x1b[1;32m";

pub const BOLD_YELLOW: &'static str = "\x1b[1;33m";

pub const BOLD_RED: &'static str = "\x1b[1;31m";

pub const BOLD_MAGENTA: &'static str = "\x1b[1;35m";

/// `value` wrapped in the escape `code` and a reset when colour is on; `value` itself otherwise.
pub open spec fn painted(enabled: bool, code: Seq<char>, value: Seq<char>) -> Seq<char> {
    if enabled {
        code + value + RESET@
    } else {
        value
    }
}

/// The colour of an HTTP method name.
pub open spec fn method_code(method: Seq<char>) -> Seq<char> {
    if method == "GET"@ {
        BOLD_BLUE@
    } else if method == "POST"@ {
        BOLD_GREEN@
    } else if method == "PUT"@ || method == "PATCH"@ {
        BOLD_YELLOW@
    } else if method == "DELETE"@ {
        BOLD_RED@
    } else if method == "HEAD"@ || method == "OPTIONS"@ || method == "TRACE"@ {
        BOLD_MAGENTA@
    } else {
        BOLD@
    }
}

pub open spec fn is_digit(c: char) -> bool {
    '0' <= c && c <= '9'
}

/// The number that a string of decimal digits spells.
pub open spec fn digits_value(s: Seq<char>) -> nat
    decreases s.len(),
{
    if s.len() == 0 {
        0
    } else {
        digits_value(s.drop_last()) * 10 + ((s.last() as u32) - 48) as nat
    }
}

/// The digits of a number to parse: `s` without one leading `+`.
pub open spec fn unsigned_digits(s: Seq<char>) -> Seq<char> {
    if s.len() > 0 && s[0] == '+' {
        s.drop_first()
    } else {
        s
    }
}

pub open spec fn all_digits(d: Seq<char>) -> bool {
    forall|i: int| 0 <= i < d.len() ==> is_digit(#[trigger] d[i])
}

/// What `str::parse::<u16>` gives: an optional `+`, then one or more decimal
/// digits whose value fits in 16 bits.
pub open spec fn parse_u16_spec(s: Seq<char>) -> Option<nat> {
    let d = unsigned_digits(s);
    if d.len() > 0 && all_digits(d) && digits_value(d) <= 65535 {
        Some(digits_value(d))
    } else {
        None
    }
}

/// The colour of an HTTP status, by its family.
pub open spec fn status_code(status: Seq<char>) -> Seq<char> {
    match parse_u16_spec(status) {
        Some(v) => if 100 <= v <= 199 {
            BOLD_BLUE@
        } else if 200 <= v <= 299 {
            BOLD_GREEN@
        } else if 300 <= v <= 399 {
            BOLD_CYAN@
        } else if 400 <= v <= 599 {
            BOLD_RED@
        } else {
            BOLD_YELLOW@
        },
        None => BOLD_YELLOW@,
    }
}

/// Whether output is coloured, from the environment and the terminal:
/// `NO_COLOR` (set at all) turns colour off; a `CLICOLOR_FORCE` that is neither
/// empty nor `0` turns it on; `CLICOLOR=0` turns it off; otherwise colour is on
/// exactly when stdout is a terminal and `TERM` is not `dumb` (in any case).
pub open spec fn colors_enabled_spec(
    no_color: bool,
    clicolor_force: Option<Seq<char>>,
    clicolor: Option<Seq<char>>,
    term: Seq<char>,
    stdout_is_terminal: bool,
) -> bool {
    if no_color {
        false
    } else if clicolor_force matches Some(v) && v.len() > 0 && v != "0"@ {
        true
    } else if clicolor == Some("0"@) {
        false
    } else {
        !eq_ignore_case(term, "dumb"@) && stdout_is_terminal
    }
}

/// See [`colors_enabled_spec`]. An unset or non-Unicode variable is `None`
/// (for `TERM`, the empty string).
pub fn colors_enabled(
    no_color: bool,
    clicolor_force: &Option<String>,
    clicolor: &Option<String>,
    term: &str,
    stdout_is_terminal: bool,
) -> (r: bool)
    ensures
        r == colors_enabled_spec(
            no_color,
            clicolor_force.deep_view(),
            clicolor.deep_view(),
            term@,
            stdout_is_terminal,
        ),
{
    if no_color {
        return false;
    }
    let forced = match clicolor_force {
        Some(v) => to_chars(v.as_str()).len() > 0 && !str_eq(v.as_str(), "0"),
        None => false,
    };
    if forced {
        return true;
    }
    let off = match clicolor {
        Some(v) => str_eq(v.as_str(), "0"),
        None => false,
    };
    if off {
        return false;
    }
    !eq_ignore_ascii_case(term, "dumb") && stdout_is_terminal
}

/// The escape code for an HTTP method.
pub fn method_color(method: &str) -> (r: &'static str)
    ensures
        r@ == method_code(method@),
{
    if str_eq(method, "GET") {
        BOLD_BLUE
    } else if str_eq(method, "POST") {
        BOLD_GREEN
    } else if str_eq(method, "PUT") || str_eq(method, "PATCH") {
        BOLD_YELLOW
    } else if str_eq(method, "DELETE") {
        BOLD_RED
    } else if str_eq(method, "HEAD") || str_eq(method, "OPTIONS") || str_eq(method, "TRACE") {
        BOLD_MAGENTA
    } else {
        BOLD
    }
}

proof fn lemma_digits_value_prefix(d: Seq<char>, i: int)
    requires
        0 <= i <= d.len(),
    ensures
        digits_value(d.take(i)) <= digits_value(d),
    decreases d.len(),
{
    if i < d.len() {
        lemma_digits_value_prefix(d.drop_last(), i);
        assert(d.drop_last().take(i) =~= d.take(i));
    } else {
        assert(d.take(i) =~= d);
    }
}

/// `s` read as a 16-bit unsigned number (`str::parse::<u16>`).
pub fn parse_u16(s: &str) -> (r: Option<u16>)
    ensures
        match r {
            Some(v) => parse_u16_spec(s@) == Some(v as nat),
            None => parse_u16_spec(s@) is None,
        },
{
    let v = to_chars(s);
    let start: usize = if v.len() > 0 && v[0] == '+' {
        1
    } else {
        0
    };
    let ghost d = unsigned_digits(s@);
    assert(d =~= v@.skip(start as int));
    if start == v.len() {
        return None;
    }
    let mut acc: u32 = 0;
    let mut i: usize = start;
    while i < v.len()
        invariant
            v@ == s@,
            start <= i <= v.len(),
            d == v@.skip(start as int),
            d == unsigned_digits(s@),
            forall|k: int| 0 <= k < i - start ==> is_digit(#[trigger] d[k]),
            acc as nat == digits_value(d.take(i - start)),
            acc <= 65535,
        decreases v.len() - i,
    {
        let c = v[i];
        if !('0' <= c && c <= '9') {
            assert(!is_digit(d[i - start]));
            return None;
        }
        let digit = (c as u32) - 48;
        assert(d[i - start] == c);
        assert(d.take(i - start + 1).drop_last() =~= d.take(i - start));
        assert(d.take(i - start + 1).last() == c);
        acc = acc * 10 + digit;
        i = i + 1;
        assert(acc as nat == digits_value(d.take(i - start)));
        if acc > 65535 {
            proof {
                lemma_digits_value_prefix(d, i - start);
                assert(digits_value(d) > 65535);
                assert(d.len() > 0);
            }
            return None;
        }
    }
    assert(d.take(i - start) =~= d);
    Some(acc as u16)
}

/// The escape code for an HTTP status code, by family.
pub fn status_color(status: &str) -> (r: &'static str)
    ensures
        r@ == status_code(status@),
{
    match parse_u16(status) {
        Some(v) => if 100 <= v && v <= 199 {
            BOLD_BLUE
        } else if 200 <= v && v <= 299 {
            BOLD_GREEN
        } else if 300 <= v && v <= 399 {
            BOLD_CYAN
        } else if 400 <= v && v <= 599 {
            BOLD_RED
        } else {
            BOLD_YELLOW
        },
        None => BOLD_YELLOW,
    }
}

/// Whether and how the report is coloured.
#[derive(Debug, Clone, Copy)]
pub struct Color {
    pub enabled: bool,
}

impl Color {
    /// The colour setting for this process, from what the environment and the
    /// terminal say (see [`colors_enabled_spec`]).
    pub fn detect(
        no_color: bool,
        clicolor_force: &Option<String>,
        clicolor: &Option<String>,
        term: &str,
        stdout_is_terminal: bool,
    ) -> (r: Color)
        ensures
            r.enabled == colors_enabled_spec(
                no_color,
                clicolor_force.deep_view(),
                clicolor.deep_view(),
                term@,
                stdout_is_terminal,
            ),
    {
        Color {
            enabled: colors_enabled(no_color, clicolor_force, clicolor, term, stdout_is_terminal),
        }
    }

    /// `value` in the colour `code`, or `value` as it is when colour is off.
    pub fn paint(&self, code: &str, value: &str) -> (r: String)
        ensures
            r@ == painted(self.enabled, code@, value@),
    {
        if self.enabled {
            let mut out = code.to_owned();
            out.append(value);
            out.append(RESET);
            out
        } else {
            value.to_owned()
        }
    }

    /// A section title.
    pub fn section(&self, value: &str) -> (r: String)
        ensures
            r@ == painted(self.enabled, BOLD_CYAN@, value@),
    {
        self.paint(BOLD_CYAN, value)
    }

    /// A field label.
    pub fn label(&self, value: &str) -> (r: String)
        ensures
            r@ == painted(self.enabled, DIM@, value@),
    {
        self.paint(DIM, value)
    }

    /// An HTTP method, in its method's colour.
    pub fn method(&self, value: &str) -> (r: String)
        ensures
            r@ == painted(self.enabled, method_code(value@), value@),
    {
        self.paint(method_color(value), value)
    }

    /// A URL.
    pub fn url(&self, value: &str) -> (r: String)
        ensures
            r@ == painted(self.enabled, CYAN@, value@),
    {
        self.paint(CYAN, value)
    }

    /// A shell command line.
    pub fn command(&self, value: &str) -> (r: String)
        ensures
            r@ == painted(self.enabled, DIM@, value@),
    {
        self.paint(DIM, value)
    }

    /// A request header.
    pub fn header(&self, value: &str) -> (r: String)
        ensures
            r@ == painted(self.enabled, MAGENTA@, value@),
    {
        self.paint(MAGENTA, value)
    }

    /// An HTTP status, in its family's colour.
    pub fn status(&self, value: &str) -> (r: String)
        ensures
            r@ == painted(self.enabled, status_code(value@), value@),
    {
        self.paint(status_color(value), value)
    }

    /// A request or response body: JSON-looking text is coloured token by
    /// token when colour is on; anything else is kept as it is.
    pub fn body(&self, value: &str) -> (r: String)
        ensures
            r@ == if self.enabled && looks_like_json(value@) {
                colorize_from(value@, 0, true)
            } else {
                value@
            },
    {
        if self.enabled && body_looks_like_json(value) {
            colorize_json(value, *self)
        } else {
            value.to_owned()
        }
    }
}

/// `NO_COLOR` turns colour off whatever else is set; without it, a
/// `CLICOLOR_FORCE` that is neither empty nor `0` turns colour on whatever the
/// terminal is; `CLICOLOR=0` turns it off; with none of them set, colour is on
/// exactly on a terminal whose `TERM` is not `dumb` (in any case).
pub proof fn lemma_color_overrides(
    no_color: bool,
    clicolor_force: Option<Seq<char>>,
    clicolor: Option<Seq<char>>,
    term: Seq<char>,
    stdout_is_terminal: bool,
)
    ensures
        no_color ==> !colors_enabled_spec(
            no_color,
            clicolor_force,
            clicolor,
            term,
            stdout_is_terminal,
        ),
        (!no_color && (clicolor_force matches Some(v) && v.len() > 0 && v != "0"@))
            ==> colors_enabled_spec(no_color, clicolor_force, clicolor, term, stdout_is_terminal),
        (!no_color && clicolor_force is None && clicolor == Some("0"@)) ==> !colors_enabled_spec(
            no_color,
            clicolor_force,
            clicolor,
            term,
            stdout_is_terminal,
        ),
        (!no_color && clicolor_force is None && clicolor is None) ==> (colors_enabled_spec(
            no_color,
            clicolor_force,
            clicolor,
            term,
            stdout_is_terminal,
        ) <==> (stdout_is_terminal && !eq_ignore_case(term, "dumb"@))),
{
}

/// With colour off, every kind of text is shown exactly as it is.
pub proof fn lemma_disabled_color_is_plain(code: Seq<char>, value: Seq<char>)
    ensures
        painted(false, code, value) == value,
        colorize_from(value, 0, false) == value,
{
    crate::json::lemma_colorize_disabled_is_identity(value);
}

/// The decimal digit for `d` (below ten).
pub open spec fn digit_char(d: nat) -> char {
    (d + 48) as char
}

/// The decimal numeral of `v`, without leading zeros.
pub open spec fn decimal(v: nat) -> Seq<char>
    decreases v,
{
    if v < 10 {
        seq![digit_char(v)]
    } else {
        decimal(v / 10).push(digit_char(v % 10))
    }
}

proof fn lemma_decimal(v: nat)
    ensures
        decimal(v).len() > 0,
        decimal(v)[0] != '+',
        all_digits(decimal(v)),
        digits_value(decimal(v)) == v,
    decreases v,
{
    if v >= 10 {
        lemma_decimal(v / 10);
        let d = decimal(v / 10);
        let r = d.push(digit_char(v % 10));
        assert(r.drop_last() =~= d);
        assert forall|i: int| 0 <= i < r.len() implies is_digit(#[trigger] r[i]) by {
            if i < d.len() {
                assert(r[i] == d[i]);
                assert(is_digit(d[i]));
            }
        }
        assert(r[0] == d[0]);
        assert((digit_char(v % 10) as u32) == v % 10 + 48);
        assert(r.last() == digit_char(v % 10));
        assert(v == (v / 10) * 10 + v % 10);
        assert(digits_value(r) == digits_value(d) * 10 + (v % 10));
        assert(decimal(v) == r);
    } else {
        assert((digit_char(v) as u32) == v + 48);
        assert(decimal(v).drop_last() =~= Seq::<char>::empty());
        assert(decimal(v).last() == digit_char(v));
        assert(is_digit(decimal(v)[0]));
        assert(digits_value(Seq::<char>::empty()) == 0);
        assert(digits_value(decimal(v)) == digits_value(decimal(v).drop_last()) * 10 + (
        (decimal(v).last() as u32) - 48) as nat);
    }
}

/// The report colours a status by its family, read from its decimal
/// numeral: 1xx blue, 2xx green, 3xx cyan, 4xx and 5xx red, and yellow for
/// any other number.
pub proof fn lemma_status_families(v: nat)
    requires
        v <= 65535,
    ensures
        100 <= v <= 199 ==> status_code(decimal(v)) == BOLD_BLUE@,
        200 <= v <= 299 ==> status_code(decimal(v)) == BOLD_GREEN@,
        300 <= v <= 399 ==> status_code(decimal(v)) == BOLD_CYAN@,
        400 <= v <= 599 ==> status_code(decimal(v)) == BOLD_RED@,
        (v < 100 || v > 599) ==> status_code(decimal(v)) == BOLD_YELLOW@,
        parse_u16_spec(decimal(v)) == Some(v),
{
    lemma_decimal(v);
    assert(unsigned_digits(decimal(v)) == decimal(v));
}

} // verus!
