//! Parsing a raw address into a scheme-aware `Url`, and rendering it back.
use vstd::prelude::*;
use vstd::string::{StrSliceExecFns, StringExecFns};
use crate::text::{
    chars_of,
    find_char,
    index_of,
    last_index_of,
    lemma_index_of_found,
    lemma_last_index_of_found,
    scan_authority,
    segment_is,
    AuthoritySplit,
};

verus! {

/// Why a raw address could not be parsed.
#[derive(Debug, Clone, Copy, PartialEq, Eq, Structural)]
pub enum ParseError {
    /// No `:` after the scheme, or a delimiter that the scheme requires is missing.
    MalformedUrl,
    /// The scheme is not one of `http`, `https`, `file`, `data`, `view-source`.
    UnsupportedScheme,
    /// A port is present but is not a decimal number in `1..=65535`, with
    /// at most one `+` before it.
    InvalidPort,
}

/// A parsed address.
pub enum Url {
    Web { scheme: String, host: String, port: u16, path: String },
    /// scheme, path
    File(String, String),
    /// scheme, mimetype, data
    Data(String, String, String),
    /// Always wraps a `Url::Web`.
    ViewSource(Box<Url>),
}

/// The abstract value of a `Url`.
pub enum UrlView {
    Web { scheme: Seq<char>, host: Seq<char>, port: u16, path: Seq<char> },
    File { scheme: Seq<char>, path: Seq<char> },
    Data { scheme: Seq<char>, mimetype: Seq<char>, data: Seq<char> },
    ViewSource { inner: Box<UrlView> },
}

impl View for Url {
    type V = UrlView;

    open spec fn view(&self) -> UrlView
        decreases self,
    {
        match self {
            Url::Web { scheme, host, port, path } => UrlView::Web {
                scheme: scheme@,
                host: host@,
                port: *port,
                path: path@,
            },
            Url::File(scheme, path) => UrlView::File { scheme: scheme@, path: path@ },
            Url::Data(scheme, mimetype, data) => UrlView::Data {
                scheme: scheme@,
                mimetype: mimetype@,
                data: data@,
            },
            Url::ViewSource(inner) => UrlView::ViewSource { inner: Box::new((**inner).view()) },
        }
    }
}

pub open spec fn http_chars() -> Seq<char> {
    seq!['h', 't', 't', 'p']
}

pub open spec fn https_chars() -> Seq<char> {
    seq!['h', 't', 't', 'p', 's']
}

pub open spec fn data_chars() -> Seq<char> {
    seq!['d', 'a', 't', 'a']
}

pub open spec fn file_chars() -> Seq<char> {
    seq!['f', 'i', 'l', 'e']
}

pub open spec fn view_source_chars() -> Seq<char> {
    seq!['v', 'i', 'e', 'w', '-', 's', 'o', 'u', 'r', 'c', 'e']
}

/// The port a web scheme uses when the address names none.
pub open spec fn default_port_of(scheme: Seq<char>) -> u16 {
    if scheme == https_chars() {
        443
    } else {
        80
    }
}

pub open spec fn is_digit(c: char) -> bool {
    '0' <= c <= '9'
}

pub open spec fn all_digits(s: Seq<char>) -> bool {
    forall|i: int| 0 <= i < s.len() ==> is_digit(#[trigger] s[i])
}

pub open spec fn digit_value(c: char) -> nat {
    (c as int - '0' as int) as nat
}

/// The number that a run of decimal digits denotes.
pub open spec fn digits_value(s: Seq<char>) -> nat
    decreases s.len(),
{
    if s.len() == 0 {
        0
    } else {
        digits_value(s.drop_last()) * 10 + digit_value(s.last())
    }
}

/// The port that the text after the authority's `:` denotes, if it is one.
/// One optional `+` may stand before the digits.
#[verifier::opaque]
pub open spec fn port_of(s: Seq<char>) -> Option<u16> {
    let d = if s.len() > 0 && s[0] == '+' {
        s.drop_first()
    } else {
        s
    };
    if d.len() > 0 && all_digits(d) && 1 <= digits_value(d) <= 65535 {
        Some(digits_value(d) as u16)
    } else {
        None
    }
}

/// The part of an `http`/`https` address after `scheme:`.
///
/// The authority runs to the first `/`; its last `:` separates the port.
/// The path is that first `/` and all that follows it, or empty when there is
/// none: a non-empty tail gets a leading `/`, and a trailing `/` stays exactly
/// as it was written. A bad port is reported before an empty host.
pub open spec fn parse_web_spec(scheme: Seq<char>, rest: Seq<char>) -> Result<UrlView, ParseError> {
    if !(rest.len() >= 2 && rest[0] == '/' && rest[1] == '/') {
        Err(ParseError::MalformedUrl)
    } else {
        let r = rest.skip(2);
        let host_port = match index_of(r, '/') {
            Some(k) => r.take(k),
            None => r,
        };
        let path = match index_of(r, '/') {
            Some(k) => r.skip(k),
            None => Seq::empty(),
        };
        let host = match last_index_of(host_port, ':') {
            Some(c) => host_port.take(c),
            None => host_port,
        };
        let port = match last_index_of(host_port, ':') {
            Some(c) => port_of(host_port.skip(c + 1)),
            None => Some(default_port_of(scheme)),
        };
        match port {
            None => Err(ParseError::InvalidPort),
            Some(p) => if host.len() == 0 {
                Err(ParseError::MalformedUrl)
            } else {
                Ok(UrlView::Web { scheme, host, port: p, path })
            },
        }
    }
}

/// What parsing `s` gives. The scheme runs to the first `:` and is matched
/// case-sensitively. `data` splits the rest at its first `,`; `file` keeps what
/// follows `//` verbatim; `view-source` parses the rest again, which must give
/// a web address.
pub open spec fn parse_spec(s: Seq<char>) -> Result<UrlView, ParseError>
    decreases s.len() via parse_spec_decreases
{
    match index_of(s, ':') {
        None => Err(ParseError::MalformedUrl),
        Some(i) => {
            let scheme = s.take(i);
            let rest = s.skip(i + 1);
            if scheme == http_chars() || scheme == https_chars() {
                parse_web_spec(scheme, rest)
            } else if scheme == data_chars() {
                match index_of(rest, ',') {
                    None => Err(ParseError::MalformedUrl),
                    Some(j) => Ok(
                        UrlView::Data { scheme, mimetype: rest.take(j), data: rest.skip(j + 1) },
                    ),
                }
            } else if scheme == file_chars() {
                if rest.len() >= 2 && rest[0] == '/' && rest[1] == '/' {
                    Ok(UrlView::File { scheme, path: rest.skip(2) })
                } else {
                    Err(ParseError::MalformedUrl)
                }
            } else if scheme == view_source_chars() {
                match parse_spec(rest) {
                    Err(e) => Err(e),
                    Ok(inner) => if inner is Web {
                        Ok(UrlView::ViewSource { inner: Box::new(inner) })
                    } else {
                        Err(ParseError::UnsupportedScheme)
                    },
                }
            } else {
                Err(ParseError::UnsupportedScheme)
            }
        },
    }
}

#[via_fn]
proof fn parse_spec_decreases(s: Seq<char>) {
    lemma_index_of_found(s, ':');
}

/// A run of digits denotes at least as much as any of its prefixes.
proof fn lemma_digits_value_prefix(s: Seq<char>, k: int)
    requires
        0 <= k <= s.len(),
        all_digits(s),
    ensures
        digits_value(s.take(k)) <= digits_value(s),
    decreases s.len(),
{
    if k < s.len() {
        assert(s.take(k) =~= s.drop_last().take(k));
        lemma_digits_value_prefix(s.drop_last(), k);
    } else {
        assert(s.take(k) =~= s);
    }
}

/// A port is never zero.
pub proof fn lemma_port_of_positive(s: Seq<char>)
    ensures
        port_of(s) matches Some(p) ==> p >= 1,
{
    reveal(port_of);
}

/// The port that `v[from..to]` denotes, if it is one.
fn parse_port(v: &Vec<char>, from: usize, to: usize) -> (r: Option<u16>)
    requires
        from <= to <= v.len(),
    ensures
        r == port_of(v@.subrange(from as int, to as int)),
{
    let ghost whole = v@.subrange(from as int, to as int);
    proof {
        reveal(port_of);
    }
    let start = if from < to && v[from] == '+' {
        assert(whole.drop_first() =~= v@.subrange(from + 1, to as int));
        from + 1
    } else {
        assert(whole =~= v@.subrange(from as int, to as int));
        from
    };
    let ghost seg = v@.subrange(start as int, to as int);
    let mut acc: u32 = 0;
    let mut i = start;
    while i < to
        invariant
            start <= i <= to <= v.len(),
            seg == v@.subrange(start as int, to as int),
            whole == v@.subrange(from as int, to as int),
            seg == (if whole.len() > 0 && whole[0] == '+' {
                whole.drop_first()
            } else {
                whole
            }),
            all_digits(seg.take(i - start)),
            acc == digits_value(seg.take(i - start)),
            acc <= 65535,
        decreases to - i,
    {
        let c = v[i];
        if !('0' <= c && c <= '9') {
            assert(!is_digit(seg[i - start]));
            proof {
                reveal(port_of);
            }
            return None;
        }
        let d = (c as u32) - ('0' as u32);
        proof {
            let p = seg.take(i - start + 1);
            assert(p.drop_last() =~= seg.take(i - start));
            assert(p.last() == c);
        }
        acc = acc * 10 + d;
        i = i + 1;
        if acc > 65535 {
            proof {
                reveal(port_of);
                if all_digits(seg) {
                    lemma_digits_value_prefix(seg, i - start);
                }
            }
            return None;
        }
    }
    assert(seg.take(i - start) =~= seg);
    if start == to || acc == 0 {
        return None;
    }
    Some(acc as u16)
}

/// The port a web scheme uses when the address names none.
fn default_port(scheme: &Vec<char>, from: usize, to: usize) -> (r: u16)
    requires
        from <= to <= scheme.len(),
    ensures
        r == default_port_of(scheme@.subrange(from as int, to as int)),
{
    proof {
        reveal_strlit("https");
        assert("https"@ =~= https_chars());
    }
    if segment_is(scheme, from, to, "https") {
        443
    } else {
        80
    }
}

/// The abstract value of a parse result.
pub open spec fn result_view(r: Result<Url, ParseError>) -> Result<UrlView, ParseError> {
    match r {
        Ok(u) => Ok(u@),
        Err(e) => Err(e),
    }
}

/// Parses the web address `raw`, whose scheme ends at `v[colon]`.
#[verifier::rlimit(30)]
fn parse_web(raw: &str, v: &Vec<char>, colon: usize) -> (r: Result<Url, ParseError>)
    requires
        v@ == raw@,
        colon < v.len(),
    ensures
        result_view(r) == parse_web_spec(v@.take(colon as int), v@.skip(colon + 1)),
        r matches Ok(u) ==> u.wf(),
{
    let ghost rest = v@.skip(colon + 1);
    let n = v.len();
    if !(n - colon - 1 >= 2 && v[colon + 1] == '/' && v[colon + 2] == '/') {
        return Err(ParseError::MalformedUrl);
    }
    let start = colon + 3;
    let ghost r = rest.skip(2);
    assert(r =~= v@.subrange(start as int, n as int));
    let split: AuthoritySplit = scan_authority(v, start);
    proof {
        lemma_index_of_found(r, '/');
    }
    let end = match split.slash {
        Some(k) => k,
        None => n,
    };
    let ghost host_port = v@.subrange(start as int, end as int);
    assert(host_port =~= r.take(end - start));
    proof {
        lemma_last_index_of_found(host_port, ':');
    }
    let port = match split.colon {
        Some(c) => {
            assert(host_port.skip(c - start + 1) =~= v@.subrange(c + 1, end as int));
            proof {
                lemma_port_of_positive(v@.subrange(c + 1, end as int));
            }
            parse_port(v, c + 1, end)
        },
        None => Some(default_port(v, 0, colon)),
    };
    let port = match port {
        Some(p) => p,
        None => return Err(ParseError::InvalidPort),
    };
    let host_end = match split.colon {
        Some(c) => c,
        None => end,
    };
    assert(v@.subrange(start as int, host_end as int) =~= match split.colon {
        Some(c) => host_port.take(c - start),
        None => host_port,
    });
    if host_end == start {
        return Err(ParseError::MalformedUrl);
    }
    let scheme = raw.substring_char(0, colon).to_owned();
    let host = raw.substring_char(start, host_end).to_owned();
    let path = match split.slash {
        Some(k) => {
            assert(r.skip(k - start) =~= v@.subrange(k as int, n as int));
            raw.substring_char(k, n).to_owned()
        },
        None => String::new(),
    };
    assert(v@.subrange(0, colon as int) =~= v@.take(colon as int));
    Ok(Url::Web { scheme, host, port, path })
}

impl Url {
    /// Parses a raw address: the scheme runs to the first `:`, and what
    /// follows is read as that scheme requires.
    pub fn parse(raw: &str) -> (r: Result<Url, ParseError>)
        ensures
            result_view(r) == parse_spec(raw@),
            r matches Ok(u) ==> u.wf(),
        decreases raw@.len(),
    {
        let v = chars_of(raw);
        let n = v.len();
        let colon = match find_char(&v, ':', 0, n) {
            Some(c) => c,
            None => {
                assert(v@.subrange(0, n as int) =~= v@);
                return Err(ParseError::MalformedUrl);
            },
        };
        assert(v@.subrange(0, n as int) =~= v@);
        proof {
            lemma_index_of_found(v@, ':');
            reveal_strlit("http");
            reveal_strlit("https");
            reveal_strlit("data");
            reveal_strlit("file");
            reveal_strlit("view-source");
            assert("http"@ =~= http_chars());
            assert("https"@ =~= https_chars());
            assert("data"@ =~= data_chars());
            assert("file"@ =~= file_chars());
            assert("view-source"@ =~= view_source_chars());
            assert(v@.subrange(0, colon as int) =~= v@.take(colon as int));
        }
        let ghost rest = v@.skip(colon + 1);
        if segment_is(&v, 0, colon, "http") || segment_is(&v, 0, colon, "https") {
            parse_web(raw, &v, colon)
        } else if segment_is(&v, 0, colon, "data") {
            assert(rest =~= v@.subrange(colon + 1, n as int));
            match find_char(&v, ',', colon + 1, n) {
                None => Err(ParseError::MalformedUrl),
                Some(j) => {
                    proof {
                        lemma_index_of_found(rest, ',');
                    }
                    assert(rest.take(j - colon - 1) =~= v@.subrange(colon + 1, j as int));
                    assert(rest.skip(j - colon) =~= v@.subrange(j + 1, n as int));
                    let scheme = raw.substring_char(0, colon).to_owned();
                    let mimetype = raw.substring_char(colon + 1, j).to_owned();
                    let data = raw.substring_char(j + 1, n).to_owned();
                    Ok(Url::Data(scheme, mimetype, data))
                },
            }
        } else if segment_is(&v, 0, colon, "file") {
            if n - colon - 1 >= 2 && v[colon + 1] == '/' && v[colon + 2] == '/' {
                assert(rest.skip(2) =~= v@.subrange(colon + 3, n as int));
                let scheme = raw.substring_char(0, colon).to_owned();
                let path = raw.substring_char(colon + 3, n).to_owned();
                Ok(Url::File(scheme, path))
            } else {
                Err(ParseError::MalformedUrl)
            }
        } else if segment_is(&v, 0, colon, "view-source") {
            let inner_raw = raw.substring_char(colon + 1, n);
            assert(inner_raw@ =~= rest);
            match Url::parse(inner_raw) {
                Err(e) => Err(e),
                Ok(inner) => match inner {
                    Url::Web { .. } => Ok(Url::ViewSource(Box::new(inner))),
                    _ => Err(ParseError::UnsupportedScheme),
                },
            }
        } else {
            Err(ParseError::UnsupportedScheme)
        }
    }

    /// Parses a raw address that is known to be valid.
    pub fn new(url: &str) -> (r: Url)
        requires
            parse_spec(url@) is Ok,
        ensures
            parse_spec(url@) == Ok::<UrlView, ParseError>(r@),
            r.wf(),
    {
        match Url::parse(url) {
            Ok(u) => u,
            Err(_) => {
                assert(false);
                Url::File(String::new(), String::new())
            },
        }
    }

    /// Each part holds what its variant requires: a web address has a
    /// non-empty host and a positive port, and a view-source address wraps a
    /// web address.
    pub open spec fn wf(&self) -> bool {
        match self {
            Url::Web { host, port, .. } => web_wf(host@, *port),
            Url::ViewSource(inner) => match **inner {
                Url::Web { host, port, .. } => web_wf(host@, port),
                _ => false,
            },
            _ => true,
        }
    }
}

pub open spec fn web_wf(host: Seq<char>, port: u16) -> bool {
    host.len() > 0 && port > 0
}

pub open spec fn digit_chars() -> Seq<char> {
    seq!['0', '1', '2', '3', '4', '5', '6', '7', '8', '9']
}

/// The decimal digits of `n`, most significant first, without leading zeros.
pub open spec fn decimal(n: nat) -> Seq<char>
    decreases n,
{
    if n < 10 {
        seq![digit_chars()[n as int]]
    } else {
        decimal(n / 10).push(digit_chars()[(n % 10) as int])
    }
}

/// The canonical text of an address: `scheme://host:port/path`,
/// `scheme://path`, `scheme://mimetype,data` or `view-source:<inner>`.
pub open spec fn render_spec(u: UrlView) -> Seq<char>
    decreases u,
{
    match u {
        UrlView::Web { scheme, host, port, path } => scheme + seq![':', '/', '/'] + host + seq![':']
            + decimal(port as nat) + path,
        UrlView::File { scheme, path } => scheme + seq![':', '/', '/'] + path,
        UrlView::Data { scheme, mimetype, data } => scheme + seq![':', '/', '/'] + mimetype + seq![
            ',',
        ] + data,
        UrlView::ViewSource { inner } => view_source_chars() + seq![':'] + render_spec(*inner),
    }
}

/// The text of the digit `d`.
fn digit_str(d: u16) -> (r: &'static str)
    requires
        d < 10,
    ensures
        r@ == seq![digit_chars()[d as int]],
{
    proof {
        reveal_strlit("0");
        reveal_strlit("1");
        reveal_strlit("2");
        reveal_strlit("3");
        reveal_strlit("4");
        reveal_strlit("5");
        reveal_strlit("6");
        reveal_strlit("7");
        reveal_strlit("8");
        reveal_strlit("9");
    }
    match d {
        0 => "0",
        1 => "1",
        2 => "2",
        3 => "3",
        4 => "4",
        5 => "5",
        6 => "6",
        7 => "7",
        8 => "8",
        _ => "9",
    }
}

/// The decimal text of `n`.
fn decimal_string(n: u16) -> (r: String)
    ensures
        r@ == decimal(n as nat),
    decreases n,
{
    if n < 10 {
        digit_str(n).to_owned()
    } else {
        let mut s = decimal_string(n / 10);
        s.append(digit_str(n % 10));
        s
    }
}

impl Url {
    /// The canonical text of this address.
    pub fn render(&self) -> (r: String)
        ensures
            r@ == render_spec(self@),
        decreases self,
    {
        proof {
            reveal_strlit("://");
            reveal_strlit(":");
            reveal_strlit(",");
            reveal_strlit("view-source:");
        }
        match self {
            Url::Web { scheme, host, port, path } => {
                let mut s = scheme.clone();
                s.append("://");
                s.append(host.as_str());
                s.append(":");
                let digits = decimal_string(*port);
                s.append(digits.as_str());
                s.append(path.as_str());
                s
            },
            Url::File(scheme, path) => {
                let mut s = scheme.clone();
                s.append("://");
                s.append(path.as_str());
                s
            },
            Url::Data(scheme, mimetype, data) => {
                let mut s = scheme.clone();
                s.append("://");
                s.append(mimetype.as_str());
                s.append(",");
                s.append(data.as_str());
                s
            },
            Url::ViewSource(inner) => {
                let mut s = "view-source:".to_owned();
                assert("view-source:"@ =~= view_source_chars() + seq![':']);
                let rendered = inner.render();
                s.append(rendered.as_str());
                s
            },
        }
    }
}

} // verus!
