use lib::args::{parse_args, usage, Config};
use lib::color::{
    colors_enabled, method_color, parse_u16, status_color, Color, BOLD, BOLD_BLUE, BOLD_CYAN,
    BOLD_GREEN, BOLD_MAGENTA, BOLD_RED, BOLD_YELLOW, RESET,
};
use lib::curl::{curl_args, split_output, split_text, SENTINEL, WRITE_OUT_FIELDS};
use lib::json::{
    body_looks_like_json, colorize_json, consume_json_string, consume_json_token, format_body,
    next_non_ws_char, pretty_json, push_indent, trim_trailing_space,
};
use lib::report::{
    curl_preview, empty_dash, format_http_version, format_origin, render_report, shell_quote,
    write_indented,
};

fn args(parts: &[&str]) -> Vec<String> {
    parts.iter().map(|p| p.to_string()).collect()
}

/// The total time as the report shows it: curl's seconds in milliseconds,
/// with two decimals (the binary computes this outside the library).
fn millis_text(seconds: &str) -> String {
    seconds
        .parse::<f64>()
        .map(|value| format!("{:.2}", value * 1000.0))
        .unwrap_or_else(|_| "-".to_string())
}

#[test]
fn parses_post_headers_and_data() {
    let config = parse_args(args(&[
        "post",
        "https://example.test/users",
        "-H",
        "Content-Type: application/json",
        "-H",
        "X-Trace: yes",
        "-d",
        "{\"name\":\"Ada\"}",
    ]))
    .expect("valid args");

    assert_eq!(config.method, "POST");
    assert_eq!(config.url, "https://example.test/users");
    assert_eq!(
        config.headers,
        vec!["Content-Type: application/json", "X-Trace: yes"]
    );
    assert_eq!(config.data, vec!["{\"name\":\"Ada\"}"]);
    assert!(config.passthrough.is_empty());
}

#[test]
fn defaults_url_only_to_get() {
    let config = parse_args(args(&["https://example.test"])).expect("valid args");

    assert_eq!(config.method, "GET");
    assert_eq!(config.url, "https://example.test");
}

#[test]
fn formats_json_body() {
    assert_eq!(
        format_body("{\"user\":{\"name\":\"Ada\",\"roles\":[\"admin\",\"dev\"]}}"),
        "{\n  \"user\": {\n    \"name\": \"Ada\",\n    \"roles\": [\n      \"admin\",\n      \"dev\"\n    ]\n  }\n}"
    );
}

#[test]
fn splits_curl_body_and_metadata() {
    let raw = format!(
        "{{\"ok\":true}}{SENTINEL}200\t1.1\t0.012345\t127.0.0.1\t8080\t127.0.0.1\t55555\t11\tapplication/json\thttp://127.0.0.1:8080\t0"
    );

    let (body, meta) = split_output(raw.as_bytes()).expect("metadata");

    assert_eq!(body, "{\"ok\":true}");
    assert_eq!(meta.status, "200");
    assert_eq!(format_http_version(&meta.http_version), "HTTP/1.1");
    assert_eq!(millis_text(&meta.time_total), "12.35");
    assert_eq!(
        format_origin(&meta.remote_ip, &meta.remote_port),
        "127.0.0.1:8080"
    );
}

#[test]
fn colors_methods_and_status_families() {
    assert_eq!(method_color("GET"), BOLD_BLUE);
    assert_eq!(method_color("POST"), BOLD_GREEN);
    assert_eq!(method_color("DELETE"), BOLD_RED);
    assert_eq!(status_color("204"), BOLD_GREEN);
    assert_eq!(status_color("302"), BOLD_CYAN);
    assert_eq!(status_color("404"), BOLD_RED);
}

#[test]
fn disabled_color_leaves_text_plain() {
    let color = Color { enabled: false };

    assert_eq!(color.section("Request"), "Request");
    assert_eq!(color.method("GET"), "GET");
    assert_eq!(color.body("{\n  \"ok\": true\n}"), "{\n  \"ok\": true\n}");
}

#[test]
fn colorizes_json_keys_and_values() {
    let color = Color { enabled: true };
    let output = color.body("{\n  \"ok\": true,\n  \"name\": \"Ada\"\n}");

    assert!(output.contains("\x1b[36m\"ok\"\x1b[0m"));
    assert!(output.contains("\x1b[35mtrue\x1b[0m"));
    assert!(output.contains("\x1b[32m\"Ada\"\x1b[0m"));
}

// ---------------------------------------------------------------------------
// Argument parsing

#[test]
fn no_arguments_or_help_give_usage() {
    assert_eq!(parse_args(args(&[])).err().unwrap(), usage());
    assert_eq!(parse_args(args(&["-h"])).err().unwrap(), usage());
    assert_eq!(parse_args(args(&["--help"])).err().unwrap(), usage());
    assert!(usage().starts_with("usage:\n  tracer <method> <url>"));
}

#[test]
fn rejects_first_argument_that_is_neither_method_nor_url() {
    let err = parse_args(args(&["ftp://example.test"])).err().unwrap();
    assert_eq!(
        err,
        format!(
            "expected an HTTP method or URL, got `ftp://example.test`\n\n{}",
            usage()
        )
    );
}

#[test]
fn method_without_url_is_missing_a_value() {
    let err = parse_args(args(&["get"])).err().unwrap();
    assert_eq!(err, "missing value for url");
}

#[test]
fn option_without_value_names_the_option() {
    let err = parse_args(args(&["https://x.test", "-H"])).err().unwrap();
    assert_eq!(err, "missing value for -H");
    let err = parse_args(args(&["https://x.test", "--data"])).err().unwrap();
    assert_eq!(err, "missing value for --data");
    let err = parse_args(args(&["https://x.test", "--max-time"])).err().unwrap();
    assert_eq!(err, "missing value for --max-time");
}

#[test]
fn unknown_option_and_stray_argument_are_refused() {
    let err = parse_args(args(&["https://x.test", "--bogus"])).err().unwrap();
    assert_eq!(
        err,
        "unsupported option `--bogus`; pass raw curl options after `--`"
    );
    let err = parse_args(args(&["https://x.test", "extra"])).err().unwrap();
    assert_eq!(err, "unexpected argument `extra`");
}

#[test]
fn method_in_any_case_is_upper_cased() {
    let config = parse_args(args(&["dElEtE", "https://x.test/1"])).unwrap();
    assert_eq!(config.method, "DELETE");
    assert_eq!(config.url, "https://x.test/1");
    assert_eq!(config.tail_start, 2);
}

#[test]
fn glued_header_and_data_and_passthrough_options() {
    let config = parse_args(args(&[
        "put",
        "http://x.test",
        "-HAccept: */*",
        "-dpayload",
        "--header",
        "A: b",
        "--data-raw",
        "raw",
        "-L",
        "--max-time",
        "10",
        "--",
        "--verbose",
        "-o",
        "out.txt",
    ]))
    .unwrap();
    assert_eq!(config.method, "PUT");
    assert_eq!(config.headers, vec!["Accept: */*", "A: b"]);
    assert_eq!(config.data, vec!["payload", "raw"]);
    assert_eq!(
        config.passthrough,
        vec!["-L", "--max-time", "10", "--verbose", "-o", "out.txt"]
    );
    assert_eq!(config.tail_start, 12);
}

// ---------------------------------------------------------------------------
// curl

fn sample_config() -> Config {
    parse_args(args(&[
        "post",
        "https://example.test/users",
        "-H",
        "X-Trace: yes",
        "-d",
        "{\"name\":\"Ada\"}",
        "-k",
    ]))
    .unwrap()
}

#[test]
fn curl_runs_with_request_and_write_out() {
    let config = sample_config();
    let expected: Vec<String> = vec![
        "-sS".to_string(),
        "-X".to_string(),
        "POST".to_string(),
        "https://example.test/users".to_string(),
        "-H".to_string(),
        "X-Trace: yes".to_string(),
        "--data-raw".to_string(),
        "{\"name\":\"Ada\"}".to_string(),
        "-k".to_string(),
        "-w".to_string(),
        format!("{SENTINEL}{WRITE_OUT_FIELDS}"),
    ];
    assert_eq!(curl_args(&config), expected);
    assert!(WRITE_OUT_FIELDS.starts_with("%{http_code}\t%{http_version}"));
}

#[test]
fn output_without_marker_is_an_error() {
    let err = split_output(b"just a body").err().unwrap();
    assert_eq!(err, "curl output did not include tracer metadata");
}

#[test]
fn invalid_utf8_body_is_decoded_lossily() {
    let mut raw: Vec<u8> = vec![b'a', 0xff, b'b'];
    raw.extend_from_slice(SENTINEL.as_bytes());
    raw.extend_from_slice(b"404");
    let (body, meta) = split_output(&raw).unwrap();
    assert_eq!(body, "a\u{FFFD}b");
    assert_eq!(meta.status, "404");
    assert_eq!(meta.http_version, "");
    assert_eq!(meta.num_redirects, "");
}

#[test]
fn body_holding_the_marker_is_kept_whole() {
    let body = format!("before{SENTINEL}inside");
    let text = format!("{body}{SENTINEL} 204 \t 2 \tx\ty\tz\tl\tp\t0\ttext/plain\thttp://e\t3\textra\tmore");
    let (got, meta) = split_text(&text).unwrap();
    assert_eq!(got, body);
    assert_eq!(meta.status, "204");
    assert_eq!(meta.http_version, "2");
    assert_eq!(meta.content_type, "text/plain");
    assert_eq!(meta.num_redirects, "3\textra\tmore");
}

// ---------------------------------------------------------------------------
// Report pieces

#[test]
fn shell_quote_keeps_safe_words_and_quotes_others() {
    assert_eq!(shell_quote("https://x.test/a-b_c.d=1+2"), "https://x.test/a-b_c.d=1+2");
    assert_eq!(shell_quote("a b"), "'a b'");
    assert_eq!(shell_quote("it's"), "'it'\\''s'");
    assert_eq!(shell_quote(""), "");
    assert_eq!(shell_quote("{\"a\":1}"), "'{\"a\":1}'");
}

#[test]
fn curl_preview_quotes_each_argument() {
    let config = sample_config();
    assert_eq!(
        curl_preview(&config),
        "curl -X POST https://example.test/users -H 'X-Trace: yes' --data-raw '{\"name\":\"Ada\"}' -k"
    );
}

#[test]
fn http_versions_origins_and_dashes() {
    assert_eq!(format_http_version("1"), "HTTP/1.0");
    assert_eq!(format_http_version("1.0"), "HTTP/1.0");
    assert_eq!(format_http_version("2"), "HTTP/2");
    assert_eq!(format_http_version("3.0"), "HTTP/3");
    assert_eq!(format_http_version(""), "-");
    assert_eq!(format_http_version("4"), "HTTP/4");
    assert_eq!(format_origin("", "80"), "-");
    assert_eq!(format_origin("10.0.0.1", ""), "10.0.0.1");
    assert_eq!(format_origin("::1", "443"), "::1:443");
    assert_eq!(empty_dash(""), "-");
    assert_eq!(empty_dash("7"), "7");
}

#[test]
fn status_families_and_parsing() {
    assert_eq!(status_color("100"), BOLD_BLUE);
    assert_eq!(status_color("599"), BOLD_RED);
    assert_eq!(status_color("600"), BOLD_YELLOW);
    assert_eq!(status_color("+200"), BOLD_GREEN);
    assert_eq!(status_color("abc"), BOLD_YELLOW);
    assert_eq!(status_color(""), BOLD_YELLOW);
    assert_eq!(status_color("70000"), BOLD_YELLOW);
    assert_eq!(parse_u16("65535"), Some(65535));
    assert_eq!(parse_u16("65536"), None);
    assert_eq!(parse_u16("+"), None);
    assert_eq!(parse_u16("-1"), None);
    assert_eq!(parse_u16("007"), Some(7));
}

#[test]
fn method_colours_cover_every_method() {
    assert_eq!(method_color("PUT"), BOLD_YELLOW);
    assert_eq!(method_color("PATCH"), BOLD_YELLOW);
    assert_eq!(method_color("HEAD"), BOLD_MAGENTA);
    assert_eq!(method_color("OPTIONS"), BOLD_MAGENTA);
    assert_eq!(method_color("TRACE"), BOLD_MAGENTA);
    assert_eq!(method_color("get"), BOLD);
}

#[test]
fn colour_choice_follows_the_environment() {
    let none: Option<String> = None;
    let some = |v: &str| Some(v.to_string());
    assert!(!colors_enabled(true, &some("1"), &none, "xterm", true));
    assert!(colors_enabled(false, &some("1"), &some("0"), "dumb", false));
    assert!(colors_enabled(false, &some("0"), &none, "xterm", true));
    assert!(!colors_enabled(false, &some("0"), &none, "xterm", false));
    assert!(!colors_enabled(false, &some(""), &some("0"), "xterm", true));
    assert!(!colors_enabled(false, &none, &none, "DUMB", true));
    assert!(!colors_enabled(false, &none, &none, "xterm", false));
    assert!(colors_enabled(false, &none, &none, "xterm", true));
    assert!(colors_enabled(false, &none, &some("1"), "", true));
    let detected = Color::detect(false, &none, &none, "xterm", true);
    assert!(detected.enabled);
}

#[test]
fn paint_wraps_only_when_enabled() {
    let on = Color { enabled: true };
    let off = Color { enabled: false };
    assert_eq!(on.paint(BOLD, "x"), format!("{BOLD}x{RESET}"));
    assert_eq!(off.paint(BOLD, "x"), "x");
    assert_eq!(on.status("500"), format!("{BOLD_RED}500{RESET}"));
    assert_eq!(on.label("URL:"), "\x1b[2mURL:\x1b[0m");
    assert_eq!(on.url("u"), "\x1b[36mu\x1b[0m");
    assert_eq!(on.header("h"), "\x1b[35mh\x1b[0m");
    assert_eq!(on.command("c"), "\x1b[2mc\x1b[0m");
    assert_eq!(on.body("plain text"), "plain text");
}

// ---------------------------------------------------------------------------
// JSON

#[test]
fn pretty_json_edge_cases() {
    assert_eq!(pretty_json("[]"), Some("[\n]".to_string()));
    assert_eq!(pretty_json("{}"), Some("{\n}".to_string()));
    assert_eq!(pretty_json("}"), None);
    assert_eq!(pretty_json("{"), None);
    assert_eq!(pretty_json("\"open"), None);
    assert_eq!(pretty_json("   "), None);
    assert_eq!(pretty_json("1"), Some("1".to_string()));
    assert_eq!(
        pretty_json("{ \"a b\" : [1, \"x\\\"{\"] }"),
        Some("{\n  \"a b\": [\n    1,\n    \"x\\\"{\"\n  ]\n}".to_string())
    );
}

#[test]
fn pretty_json_keeps_content() {
    let input = "{\"k\" : [ true , null ], \"s\":\"a  b\"}";
    let out = pretty_json(input).unwrap();
    let strip = |s: &str| -> String {
        let mut kept = String::new();
        let (mut in_string, mut escaped) = (false, false);
        for c in s.chars() {
            if in_string {
                kept.push(c);
                if escaped {
                    escaped = false;
                } else if c == '\\' {
                    escaped = true;
                } else if c == '"' {
                    in_string = false;
                }
            } else if c == '"' {
                kept.push(c);
                in_string = true;
            } else if !c.is_whitespace() {
                kept.push(c);
            }
        }
        kept
    };
    assert_eq!(strip(&out), strip(input));
}

#[test]
fn format_body_cases() {
    assert_eq!(format_body("  \n\t "), "(empty)");
    assert_eq!(format_body("hello  \n"), "hello");
    assert_eq!(format_body("  {bad\n"), "  {bad");
    assert_eq!(format_body("\n[1,2]\n"), "[\n  1,\n  2\n]");
}

#[test]
fn json_detection_and_helpers() {
    assert!(body_looks_like_json("  \n{"));
    assert!(body_looks_like_json("[1]"));
    assert!(!body_looks_like_json("x{"));
    assert!(!body_looks_like_json("   "));
    assert_eq!(next_non_ws_char("a  :b", 1), Some(':'));
    assert_eq!(next_non_ws_char("a   ", 1), None);
    assert_eq!(next_non_ws_char("ab", 5), None);
    assert_eq!(next_non_ws_char("\u{e9}:", 2), Some(':'));
    assert_eq!(next_non_ws_char("\u{e9}:", 1), None);
    assert_eq!(next_non_ws_char("\u{e9}:", 3), None);

    let chars: Vec<char> = "ab\\\"c\" tail".chars().collect();
    let mut pos = 0usize;
    let s = consume_json_string('"', &chars, &mut pos);
    assert_eq!(s, "\"ab\\\"c\"");
    assert_eq!(pos, 6);

    let chars: Vec<char> = "2.5e+3, x".chars().collect();
    let mut pos = 1usize;
    let t = consume_json_token('2', &chars, &mut pos);
    assert_eq!(t, "2.5e+3");
    assert_eq!(pos, 6);
}

#[test]
fn indentation_helpers() {
    let mut s = String::from("x");
    push_indent(&mut s, 2);
    assert_eq!(s, "x    ");
    let mut t = String::from("a: \n  \n ");
    trim_trailing_space(&mut t);
    assert_eq!(t, "a:");
    let mut out = String::new();
    write_indented(&mut out, "a\r\nb\n\nc\r", 2);
    assert_eq!(out, "  a\n  b\n  \n  c\r\n");
}

#[test]
fn colorize_tokens() {
    let on = Color { enabled: true };
    let off = Color { enabled: false };
    let text = "{\"n\": -1.5, \"b\": false, \"w\": word} é";
    assert_eq!(colorize_json(text, off), text);
    let out = colorize_json(text, on);
    assert!(out.starts_with("\x1b[1m{\x1b[0m\x1b[36m\"n\"\x1b[0m\x1b[2m:\x1b[0m \x1b[33m-1.5\x1b[0m"));
    assert!(out.contains("\x1b[35mfalse\x1b[0m"));
    assert!(out.contains("\x1b[1mword\x1b[0m"));
    assert!(out.ends_with("\x1b[1m}\x1b[0m é"));
}

#[test]
fn plain_report_layout() {
    let config = sample_config();
    let raw = format!(
        "{{\"ok\":true}}{SENTINEL}201\t2\t0.5\t1.2.3.4\t443\t\t\t11\tapplication/json\t\t0"
    );
    let (body, meta) = split_output(raw.as_bytes()).unwrap();
    let color = Color { enabled: false };
    let report = render_report(&config, &body, &meta, color, "500.00");
    let expected = "Request
  Method: POST
  URL: https://example.test/users
  Curl: curl -X POST https://example.test/users -H 'X-Trace: yes' --data-raw '{\"name\":\"Ada\"}' -k
  Headers:
    X-Trace: yes
  Body:
    {
      \"name\": \"Ada\"
    }

Trace
  Status: 201
  HTTP version: HTTP/2
  Time: 500.00 ms
  Origin: 1.2.3.4:443
  Local: -
  Effective URL: -
  Redirects: 0
  Downloaded: 11 bytes
  Content-Type: application/json

Response
{
  \"ok\": true
}
";
    assert_eq!(report, expected);
}

/// How a POSIX shell reads one word: single quotes keep everything up to the
/// next single quote, a backslash outside quotes keeps the next character.
fn shell_read(word: &str) -> (String, bool) {
    let mut out = String::new();
    let (mut quoted, mut escaped) = (false, false);
    for c in word.chars() {
        if quoted {
            if c == '\'' {
                quoted = false;
            } else {
                out.push(c);
            }
        } else if escaped {
            out.push(c);
            escaped = false;
        } else if c == '\\' {
            escaped = true;
        } else if c == '\'' {
            quoted = true;
        } else {
            out.push(c);
        }
    }
    (out, quoted || escaped)
}

#[test]
fn shell_reads_quoted_values_back() {
    for value in ["plain", "two words", "it's", "''", "a\\b", "$HOME", "{\"k\":\"v\"}"] {
        assert_eq!(shell_read(&shell_quote(value)), (value.to_string(), false));
    }
}

#[test]
fn arguments_after_double_dash_are_handed_on() {
    let base = parse_args(args(&["get", "https://x.test", "-H", "A: b"])).unwrap();
    let more = parse_args(args(&["get", "https://x.test", "-H", "A: b", "--", "-H", "-d", "--weird"]))
        .unwrap();
    assert_eq!(more.method, base.method);
    assert_eq!(more.headers, base.headers);
    assert_eq!(more.passthrough, vec!["-H", "-d", "--weird"]);
    assert_eq!(more.tail_start, 5);
}

#[test]
fn eleven_fields_come_back_exactly() {
    let fields = ["301", "1.1", "0.25", "10.0.0.2", "80", "10.0.0.3", "4000", "0", "text/html", "http://y", "1"];
    let raw = format!("body with {SENTINEL} inside{SENTINEL}{}", fields.join("\t"));
    let (body, meta) = split_output(raw.as_bytes()).unwrap();
    assert_eq!(body, format!("body with {SENTINEL} inside"));
    let got = [
        meta.status, meta.http_version, meta.time_total, meta.remote_ip, meta.remote_port,
        meta.local_ip, meta.local_port, meta.size_download, meta.content_type,
        meta.url_effective, meta.num_redirects,
    ];
    assert_eq!(got.to_vec(), fields.iter().map(|f| f.to_string()).collect::<Vec<_>>());
}

#[test]
fn pretty_json_of_its_own_output_is_the_same() {
    for input in ["{\"a\":[1,{\"b\":null}],\"c\":\"x  y\"}", "[]", "{}", "[ [ ] , { } ]"] {
        let once = pretty_json(input).unwrap();
        assert_eq!(pretty_json(&once), Some(once.clone()));
    }
}

#[test]
fn removing_colour_codes_gives_the_input_back() {
    let on = Color { enabled: true };
    let text = "{\"n\": -1.5, \"ok\": [true, null], \"s\": \"\u{e9}\"} ~";
    let coloured = colorize_json(text, on);
    let mut plain = String::new();
    let mut chars = coloured.chars().peekable();
    while let Some(c) = chars.next() {
        if c == '\x1b' {
            for d in chars.by_ref() {
                if d == 'm' {
                    break;
                }
            }
        } else {
            plain.push(c);
        }
    }
    assert_eq!(plain, text);
}
