//! Talking to curl: the arguments it is run with, and how its output is split
//! into the response body and the metadata that `-w` appends after a marker line.
use vstd::prelude::*;
use vstd::utf8::{decode_utf8, encode_utf8, valid_utf8};

use crate::args::{Config, ConfigSpec};
use crate::text::{find_char, find_from, lemma_find_char_shift, range_eq, string_of, to_chars, trim, trim_bounds};

verus! {

/// The line that separates the response body from curl's metadata.
pub const SENTINEL: &'static str = "\n__TRACER_META_8B9B9E0D_7E4E_46C9_A1D4_8BE2F8E99B25__\n";

/// curl's `-w` fields, tab-separated, in the order of [`CurlMeta`]'s fields.
pub const WRITE_OUT_FIELDS: &'static str = "%{http_code}\t%{http_version}\t%{time_total}\t%{remote_ip}\t%{remote_port}\t%{local_ip}\t%{local_port}\t%{size_download}\t%{content_type}\t%{url_effective}\t%{num_redirects}";

pub const NO_METADATA: &'static str = "curl output did not include tracer metadata";

/// How many metadata fields curl writes.
pub const META_FIELDS: usize = 11;

/// What curl reported about the transfer; a field curl did not write is empty.
#[derive(Debug)]
pub struct CurlMeta {
    pub status: String,
    pub http_version: String,
    pub time_total: String,
    pub remote_ip: String,
    pub remote_port: String,
    pub local_ip: String,
    pub local_port: String,
    pub size_download: String,
    pub content_type: String,
    pub url_effective: String,
    pub num_redirects: String,
}

impl CurlMeta {
    /// The fields, in the order curl writes them.
    pub open spec fn fields(&self) -> Seq<Seq<char>> {
        seq![
            self.status@,
            self.http_version@,
            self.time_total@,
            self.remote_ip@,
            self.remote_port@,
            self.local_ip@,
            self.local_port@,
            self.size_download@,
            self.content_type@,
            self.url_effective@,
            self.num_redirects@,
        ]
    }
}

/// Text decoded from bytes as `String::from_utf8_lossy` decodes it.
pub uninterp spec fn utf8_lossy(bytes: Seq<u8>) -> Seq<char>;

/// `String::from_utf8_lossy`: the bytes as text, each invalid sequence
/// replaced by U+FFFD. The contract names the result; it states only that
/// valid UTF-8 is decoded as it is.
#[verifier::external_body]
fn decode_utf8_lossy(bytes: &[u8]) -> (s: String)
    ensures
        s@ == utf8_lossy(bytes@),
        valid_utf8(bytes@) ==> s@ == decode_utf8(bytes@),
{
    String::from_utf8_lossy(bytes).into_owned()
}

/// Whether `p` occurs in `t` at position `i`.
pub open spec fn matches_at(t: Seq<char>, p: Seq<char>, i: int) -> bool {
    0 <= i && i + p.len() <= t.len() && t.subrange(i, i + p.len()) == p
}

/// The last position at or before `k` where `p` occurs in `t`.
pub open spec fn find_last(t: Seq<char>, p: Seq<char>, k: int) -> Option<int>
    decreases k + 1,
{
    if k < 0 {
        None
    } else if matches_at(t, p, k) {
        Some(k)
    } else {
        find_last(t, p, k - 1)
    }
}

/// The position of the last occurrence of `p` in `t`.
pub open spec fn last_match(t: Seq<char>, p: Seq<char>) -> Option<int> {
    find_last(t, p, t.len() - p.len())
}

/// `str::splitn(n, '\t')`: the pieces between tabs, at most `n` of them, the
/// last holding the rest of `s`.
pub open spec fn splitn_tab(s: Seq<char>, n: nat) -> Seq<Seq<char>>
    decreases n,
{
    if n <= 1 {
        seq![s]
    } else {
        match find_char(s, '\t', 0) {
            None => seq![s],
            Some(t) => seq![s.take(t)] + splitn_tab(s.skip(t + 1), (n - 1) as nat),
        }
    }
}

/// The metadata fields in `meta`: its tab-separated pieces, trimmed, and empty
/// for each piece that is missing.
pub open spec fn meta_fields_spec(meta: Seq<char>) -> Seq<Seq<char>> {
    let pieces = splitn_tab(meta, META_FIELDS as nat);
    Seq::new(
        META_FIELDS as nat,
        |k: int|
            if k < pieces.len() {
                trim(pieces[k])
            } else {
                seq![]
            },
    )
}

/// curl's output split at the last marker line: the body before it and the
/// metadata after it; an error when there is no marker.
pub open spec fn split_text_spec(text: Seq<char>) -> Result<(Seq<char>, Seq<Seq<char>>), Seq<char>> {
    match last_match(text, SENTINEL@) {
        None => Err(NO_METADATA@),
        Some(i) => Ok((text.take(i), meta_fields_spec(text.skip(i + SENTINEL@.len())))),
    }
}

/// Two arguments `flag`, `x` for each `x` of `xs`.
pub open spec fn flag_pairs(flag: Seq<char>, xs: Seq<Seq<char>>) -> Seq<Seq<char>>
    decreases xs.len(),
{
    if xs.len() == 0 {
        seq![]
    } else {
        flag_pairs(flag, xs.drop_last()) + seq![flag, xs.last()]
    }
}

/// The arguments curl is run with for a request.
pub open spec fn curl_args_spec(c: ConfigSpec) -> Seq<Seq<char>> {
    seq!["-sS"@, "-X"@, c.method, c.url] + flag_pairs("-H"@, c.headers) + flag_pairs(
        "--data-raw"@,
        c.data,
    ) + c.passthrough + seq!["-w"@, SENTINEL@ + WRITE_OUT_FIELDS@]
}

fn push_pairs(out: &mut Vec<String>, flag: &str, xs: &Vec<String>)
    ensures
        final(out).deep_view() == old(out).deep_view() + flag_pairs(flag@, xs.deep_view()),
{
    let ghost xv = xs.deep_view();
    let mut i: usize = 0;
    while i < xs.len()
        invariant
            xv == xs.deep_view(),
            i <= xs.len(),
            out.deep_view() == old(out).deep_view() + flag_pairs(flag@, xv.take(i as int)),
        decreases xs.len() - i,
    {
        let ghost prev = out.deep_view();
        out.push(flag.to_owned());
        out.push(xs[i].clone());
        i = i + 1;
        assert(xv.take(i as int).drop_last() =~= xv.take(i - 1));
        assert(out.deep_view() =~= prev + seq![flag@, xv[i - 1]]);
    }
    assert(xv.take(xs.len() as int) =~= xv);
}

/// The arguments curl is run with for `config` (see [`curl_args_spec`]).
pub fn curl_args(config: &Config) -> (r: Vec<String>)
    ensures
        r.deep_view() == curl_args_spec(config@),
{
    let mut out: Vec<String> = Vec::new();
    out.push("-sS".to_owned());
    out.push("-X".to_owned());
    out.push(config.method.clone());
    out.push(config.url.clone());
    assert(out.deep_view() =~= seq!["-sS"@, "-X"@, config@.method, config@.url]);
    push_pairs(&mut out, "-H", &config.headers);
    push_pairs(&mut out, "--data-raw", &config.data);
    let ghost before = out.deep_view();
    let mut i: usize = 0;
    while i < config.passthrough.len()
        invariant
            i <= config.passthrough.len(),
            out.deep_view() == before + config.passthrough.deep_view().take(i as int),
        decreases config.passthrough.len() - i,
    {
        let ghost prev = out.deep_view();
        out.push(config.passthrough[i].clone());
        i = i + 1;
        assert(out.deep_view() =~= prev.push(config.passthrough.deep_view()[i - 1]));
        assert(config.passthrough.deep_view().take(i as int) =~= config.passthrough.deep_view().take(
            i - 1,
        ).push(config.passthrough.deep_view()[i - 1]));
    }
    assert(config.passthrough.deep_view().take(i as int) =~= config.passthrough.deep_view());
    out.push("-w".to_owned());
    let mut w = SENTINEL.to_owned();
    w.append(WRITE_OUT_FIELDS);
    let ghost prev = out.deep_view();
    out.push(w);
    assert(out.deep_view() =~= prev.push(SENTINEL@ + WRITE_OUT_FIELDS@));
    assert(out.deep_view() =~= curl_args_spec(config@));
    out
}

/// The position of the last occurrence of `p` in `t`.
fn rfind(t: &Vec<char>, p: &Vec<char>) -> (r: Option<usize>)
    ensures
        match r {
            Some(i) => last_match(t@, p@) == Some(i as int),
            None => last_match(t@, p@) is None,
        },
{
    if p.len() > t.len() {
        assert(find_last(t@, p@, t@.len() - p@.len()) is None);
        return None;
    }
    let mut k: usize = t.len() - p.len();
    loop
        invariant
            p.len() <= t.len(),
            k <= t.len() - p.len(),
            last_match(t@, p@) == find_last(t@, p@, k as int),
        decreases k,
    {
        let hit = range_eq(t, k, k + p.len(), p);
        assert(hit == matches_at(t@, p@, k as int));
        if hit {
            return Some(k);
        }
        assert(find_last(t@, p@, k as int) == find_last(t@, p@, k - 1));
        if k == 0 {
            assert(find_last(t@, p@, -1) is None);
            return None;
        }
        k = k - 1;
    }
}

proof fn lemma_find_last_matches(t: Seq<char>, p: Seq<char>, k: int)
    ensures
        find_last(t, p, k) matches Some(i) ==> matches_at(t, p, i) && i <= k,
    decreases k + 1,
{
    if k >= 0 && !matches_at(t, p, k) {
        lemma_find_last_matches(t, p, k - 1);
    }
}

proof fn lemma_splitn_len(s: Seq<char>, n: nat)
    ensures
        1 <= splitn_tab(s, n).len(),
        n >= 1 ==> splitn_tab(s, n).len() <= n,
    decreases n,
{
    if n > 1 {
        if let Some(t) = find_char(s, '\t', 0) {
            lemma_splitn_len(s.skip(t + 1), (n - 1) as nat);
        }
    }
}

fn field_or_empty(fields: &Vec<String>, k: usize) -> (r: String)
    ensures
        r@ == if k < fields.len() {
            fields[k as int]@
        } else {
            Seq::<char>::empty()
        },
{
    if k < fields.len() {
        fields[k].clone()
    } else {
        String::new()
    }
}

/// Splits curl's decoded output into the response body and its metadata
/// (see [`split_text_spec`]).
pub fn split_text(text: &str) -> (r: Result<(String, CurlMeta), String>)
    ensures
        match r {
            Ok((body, meta)) => split_text_spec(text@) == Ok::<
                (Seq<char>, Seq<Seq<char>>),
                Seq<char>,
            >((body@, meta.fields())),
            Err(e) => split_text_spec(text@) == Err::<(Seq<char>, Seq<Seq<char>>), Seq<char>>(e@),
        },
{
    let v = to_chars(text);
    let p = to_chars(SENTINEL);
    let at = match rfind(&v, &p) {
        Some(i) => i,
        None => {
            return Err(NO_METADATA.to_owned());
        },
    };
    proof {
        lemma_find_last_matches(v@, p@, v@.len() - p@.len());
    }
    let body = string_of(&v, 0, at);
    let start = at + p.len();
    let n = v.len();
    let ghost meta = v@.skip(start as int);
    let mut fields: Vec<String> = Vec::new();
    let ghost mut raw: Seq<Seq<char>> = seq![];
    let mut pos: usize = start;
    let mut done = false;
    assert(v@.skip(pos as int) =~= meta);
    while fields.len() < META_FIELDS && !done
        invariant
            n == v.len(),
            start <= pos <= n,
            meta == v@.skip(start as int),
            fields.len() == raw.len() <= META_FIELDS,
            forall|k: int| 0 <= k < raw.len() ==> #[trigger] fields.deep_view()[k] == trim(raw[k]),
            done ==> splitn_tab(meta, META_FIELDS as nat) == raw,
            !done ==> splitn_tab(meta, META_FIELDS as nat) == raw + splitn_tab(
                v@.skip(pos as int),
                (META_FIELDS - raw.len()) as nat,
            ),
        decreases META_FIELDS - fields.len(),
    {
        let ghost rest = v@.skip(pos as int);
        let ghost left = (META_FIELDS - raw.len()) as nat;
        let ghost prev = fields.deep_view();
        let (piece_end, next) = if fields.len() + 1 == META_FIELDS {
            (n, None)
        } else {
            match find_from(&v, '\t', pos) {
                Some(t) => (t, Some(t + 1)),
                None => (n, None),
            }
        };
        proof {
            lemma_find_char_shift(v@, '\t', pos as int, pos as int);
            assert(rest.take(piece_end - pos) =~= v@.subrange(pos as int, piece_end as int));
            if next is Some {
                assert(rest.skip(piece_end - pos + 1) =~= v@.skip(piece_end + 1));
            } else {
                assert(rest.take(piece_end - pos) =~= rest);
            }
            raw = raw.push(v@.subrange(pos as int, piece_end as int));
        }
        let (lo, hi) = trim_bounds(&v, pos, piece_end);
        fields.push(string_of(&v, lo, hi));
        assert(fields.deep_view() =~= prev.push(trim(v@.subrange(pos as int, piece_end as int))));
        match next {
            Some(q) => {
                pos = q;
                assert(raw == raw.drop_last().push(raw.last()));
                assert(seq![raw.last()] + splitn_tab(v@.skip(pos as int), (left - 1) as nat)
                    == splitn_tab(rest, left));
                assert(raw.drop_last() + (seq![raw.last()] + splitn_tab(
                    v@.skip(pos as int),
                    (left - 1) as nat,
                )) =~= raw + splitn_tab(v@.skip(pos as int), (left - 1) as nat));
            },
            None => {
                done = true;
                pos = n;
                assert(splitn_tab(rest, left) == seq![raw.last()]);
                assert(raw.drop_last() + seq![raw.last()] =~= raw);
            },
        }
    }
    proof {
        if !done {
            lemma_splitn_len(meta, META_FIELDS as nat);
            lemma_splitn_len(v@.skip(pos as int), (META_FIELDS - raw.len()) as nat);
        }
        assert forall|k: int| 0 <= k < fields.len() implies #[trigger] fields[k]@ == trim(raw[k]) by {
            assert(fields.deep_view()[k] == fields[k]@);
        }
    }
    let meta_value = CurlMeta {
        status: field_or_empty(&fields, 0),
        http_version: field_or_empty(&fields, 1),
        time_total: field_or_empty(&fields, 2),
        remote_ip: field_or_empty(&fields, 3),
        remote_port: field_or_empty(&fields, 4),
        local_ip: field_or_empty(&fields, 5),
        local_port: field_or_empty(&fields, 6),
        size_download: field_or_empty(&fields, 7),
        content_type: field_or_empty(&fields, 8),
        url_effective: field_or_empty(&fields, 9),
        num_redirects: field_or_empty(&fields, 10),
    };
    assert(meta_value.fields() =~= meta_fields_spec(meta));
    assert(v@.take(at as int) =~= v@.subrange(0, at as int));
    Ok((body, meta_value))
}

/// Splits curl's raw output into the response body and its metadata: the
/// bytes are decoded as `String::from_utf8_lossy` does, then split as
/// [`split_text`] does.
pub fn split_output(output: &[u8]) -> (r: Result<(String, CurlMeta), String>)
    ensures
        match r {
            Ok((body, meta)) => split_text_spec(utf8_lossy(output@)) == Ok::<
                (Seq<char>, Seq<Seq<char>>),
                Seq<char>,
            >((body@, meta.fields())),
            Err(e) => split_text_spec(utf8_lossy(output@)) == Err::<
                (Seq<char>, Seq<Seq<char>>),
                Seq<char>,
            >(e@),
        },
        valid_utf8(output@) ==> match r {
            Ok((body, meta)) => split_text_spec(decode_utf8(output@)) == Ok::<
                (Seq<char>, Seq<Seq<char>>),
                Seq<char>,
            >((body@, meta.fields())),
            Err(e) => split_text_spec(decode_utf8(output@)) == Err::<
                (Seq<char>, Seq<Seq<char>>),
                Seq<char>,
            >(e@),
        },
{
    let text = decode_utf8_lossy(output);
    split_text(text.as_str())
}

proof fn lemma_sentinel_shape()
    ensures
        SENTINEL@.len() > 2,
        SENTINEL@[0] == '\n',
        SENTINEL@[SENTINEL@.len() - 1] == '\n',
        forall|j: int| 0 < j < SENTINEL@.len() - 1 ==> SENTINEL@[j] != '\n',
{
    reveal_strlit("\n__TRACER_META_8B9B9E0D_7E4E_46C9_A1D4_8BE2F8E99B25__\n");
}

proof fn lemma_find_last_first_hit(t: Seq<char>, p: Seq<char>, k: int, j: int)
    requires
        0 <= j <= k,
        matches_at(t, p, j),
        forall|m: int| j < m <= k ==> !#[trigger] matches_at(t, p, m),
    ensures
        find_last(t, p, k) == Some(j),
    decreases k - j,
{
    if k > j {
        lemma_find_last_first_hit(t, p, k - 1, j);
    }
}

/// Whatever the response body holds, curl's metadata (a single line) is split
/// off exactly: the body comes back as it was, and the fields are read from
/// the metadata alone.
pub proof fn lemma_split_recovers_body(body: Seq<char>, meta: Seq<char>)
    requires
        !meta.contains('\n'),
    ensures
        split_text_spec(body + SENTINEL@ + meta) == Ok::<(Seq<char>, Seq<Seq<char>>), Seq<char>>(
            (body, meta_fields_spec(meta)),
        ),
{
    let sen = SENTINEL@;
    let t = body + sen + meta;
    let b = body.len() as int;
    let l = sen.len() as int;
    lemma_sentinel_shape();
    assert(t.subrange(b, b + l) =~= sen);
    assert forall|m: int| b < m <= t.len() - l implies !#[trigger] matches_at(t, sen, m) by {
        if matches_at(t, sen, m) {
            assert(t.subrange(m, m + l)[0] == t[m]);
            assert(t.subrange(m, m + l)[l - 1] == t[m + l - 1]);
            if m < b + l - 1 {
                assert(t[m] == sen[m - b]);
            } else if m == b + l - 1 {
                assert(t[m + l - 1] == meta[l - 2]);
            } else {
                assert(t[m] == meta[m - b - l]);
            }
        }
    }
    lemma_find_last_first_hit(t, sen, t.len() - l, b);
    assert(t.take(b) =~= body);
    assert(t.skip(b + l) =~= meta);
}

/// The fields one after another, separated by tabs.
pub open spec fn join_tab(fs: Seq<Seq<char>>) -> Seq<char>
    decreases fs.len(),
{
    if fs.len() <= 1 {
        if fs.len() == 1 {
            fs[0]
        } else {
            seq![]
        }
    } else {
        fs[0] + seq!['\t'] + join_tab(fs.drop_first())
    }
}

proof fn lemma_find_char_first(s: Seq<char>, c: char, at: int, i: int)
    requires
        0 <= i <= at < s.len(),
        s[at] == c,
        forall|j: int| 0 <= j < at ==> s[j] != c,
    ensures
        find_char(s, c, i) == Some(at),
    decreases at - i,
{
    if i < at {
        lemma_find_char_first(s, c, at, i + 1);
    }
}

proof fn lemma_join_tab_chars(fs: Seq<Seq<char>>, c: char)
    requires
        c != '\t',
        forall|k: int| 0 <= k < fs.len() ==> !(#[trigger] fs[k]).contains(c),
    ensures
        !join_tab(fs).contains(c),
    decreases fs.len(),
{
    if fs.len() > 1 {
        let rest = fs.drop_first();
        assert forall|k: int| 0 <= k < rest.len() implies !(#[trigger] rest[k]).contains(c) by {
            assert(rest[k] == fs[k + 1]);
        }
        lemma_join_tab_chars(rest, c);
        let j = fs[0] + seq!['\t'] + join_tab(rest);
        if j.contains(c) {
            let x = choose|x: int| 0 <= x < j.len() && j[x] == c;
            if x < fs[0].len() {
                assert(fs[0][x] == c);
            } else if x > fs[0].len() {
                assert(join_tab(rest)[x - fs[0].len() - 1] == c);
            }
        }
    }
}

proof fn lemma_splitn_join(fs: Seq<Seq<char>>, n: nat)
    requires
        fs.len() == n >= 1,
        forall|k: int| 0 <= k < fs.len() ==> !(#[trigger] fs[k]).contains('\t'),
    ensures
        splitn_tab(join_tab(fs), n) == fs,
    decreases n,
{
    if n == 1 {
        assert(seq![fs[0]] =~= fs);
    } else {
        let rest = fs.drop_first();
        let j = join_tab(fs);
        let a = fs[0];
        assert(j == a + seq!['\t'] + join_tab(rest));
        assert forall|x: int| 0 <= x < a.len() implies j[x] != '\t' by {
            assert(j[x] == a[x]);
            if a[x] == '\t' {
                assert(a.contains('\t'));
            }
        }
        lemma_find_char_first(j, '\t', a.len() as int, 0);
        assert(j.take(a.len() as int) =~= a);
        assert(j.skip(a.len() + 1int) =~= join_tab(rest));
        assert forall|k: int| 0 <= k < rest.len() implies !(#[trigger] rest[k]).contains('\t') by {
            assert(rest[k] == fs[k + 1]);
        }
        lemma_splitn_join(rest, (n - 1) as nat);
        assert(seq![a] + rest =~= fs);
    }
}

/// Fields without tabs or newlines and without surrounding whitespace, written
/// after the marker one after another with tabs between them, are read back
/// exactly, and so is the body, whatever it holds.
pub proof fn lemma_split_recovers_fields(body: Seq<char>, fields: Seq<Seq<char>>)
    requires
        fields.len() == META_FIELDS,
        forall|k: int| 0 <= k < fields.len() ==> !(#[trigger] fields[k]).contains('\t'),
        forall|k: int| 0 <= k < fields.len() ==> !(#[trigger] fields[k]).contains('\n'),
        forall|k: int| 0 <= k < fields.len() ==> trim(#[trigger] fields[k]) == fields[k],
    ensures
        split_text_spec(body + SENTINEL@ + join_tab(fields)) == Ok::<
            (Seq<char>, Seq<Seq<char>>),
            Seq<char>,
        >((body, fields)),
{
    let meta = join_tab(fields);
    lemma_join_tab_chars(fields, '\n');
    lemma_split_recovers_body(body, meta);
    lemma_splitn_join(fields, META_FIELDS as nat);
    assert(meta_fields_spec(meta) =~= fields);
}

/// The same on curl's raw output: the UTF-8 bytes of the body, the marker and
/// the tab-joined fields are valid UTF-8 and decode to that text, so
/// [`split_output`] gives back exactly that body and those fields.
pub proof fn lemma_split_output_recovers(body: Seq<char>, fields: Seq<Seq<char>>)
    requires
        fields.len() == META_FIELDS,
        forall|k: int| 0 <= k < fields.len() ==> !(#[trigger] fields[k]).contains('\t'),
        forall|k: int| 0 <= k < fields.len() ==> !(#[trigger] fields[k]).contains('\n'),
        forall|k: int| 0 <= k < fields.len() ==> trim(#[trigger] fields[k]) == fields[k],
    ensures
        ({
            let bytes = encode_utf8(body + SENTINEL@ + join_tab(fields));
            &&& valid_utf8(bytes)
            &&& split_text_spec(decode_utf8(bytes)) == Ok::<
                (Seq<char>, Seq<Seq<char>>),
                Seq<char>,
            >((body, fields))
        }),
{
    let text = body + SENTINEL@ + join_tab(fields);
    vstd::utf8::encode_utf8_valid_utf8(text);
    vstd::utf8::encode_utf8_decode_utf8(text);
    lemma_split_recovers_fields(body, fields);
}

pub proof fn lemma_flag_pairs_flatten(flag: Seq<char>, xs: Seq<Seq<char>>)
    ensures
        flag_pairs(flag, xs) == xs.map_values(|x: Seq<char>| seq![flag, x]).flatten(),
    decreases xs.len(),
{
    let f = |x: Seq<char>| seq![flag, x];
    if xs.len() > 0 {
        lemma_flag_pairs_flatten(flag, xs.drop_last());
        assert(xs.map_values(f) =~= xs.drop_last().map_values(f).push(seq![flag, xs.last()]));
        xs.drop_last().map_values(f).lemma_flatten_push(seq![flag, xs.last()]);
    } else {
        assert(xs.map_values(f) =~= Seq::<Seq<Seq<char>>>::empty());
    }
}

/// curl runs silently with the request's method and URL, then `-H` before
/// each header and `--data-raw` before each body, all in order, then the
/// options handed on, and last the write-out of the marker and the fields.
pub proof fn lemma_curl_args_carry_request(c: ConfigSpec)
    ensures
        curl_args_spec(c) == seq!["-sS"@, "-X"@, c.method, c.url] + c.headers.map_values(
            |h: Seq<char>| seq!["-H"@, h],
        ).flatten() + c.data.map_values(|d: Seq<char>| seq!["--data-raw"@, d]).flatten()
            + c.passthrough + seq!["-w"@, SENTINEL@ + WRITE_OUT_FIELDS@],
{
    lemma_flag_pairs_flatten("-H"@, c.headers);
    lemma_flag_pairs_flatten("--data-raw"@, c.data);
}

} // verus!
