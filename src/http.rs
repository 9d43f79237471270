//! The HTTP/1.0 exchange with a web host: the request text, and the parsing
//! of the response into status line, headers and body.
use vstd::prelude::*;
use vstd::string::{StrSliceExecFns, StringExecFns};
use crate::text::{chars_of, find_char, index_of, lemma_index_of_found};
use crate::url::{Url, UrlView};

verus! {

/// Why the bytes a server sent are not an HTTP response.
#[derive(Debug, Clone, Copy, PartialEq, Eq, Structural)]
pub enum ProtocolError {
    /// The first line does not hold a version, a status code and an explanation.
    StatusLine,
    /// A line of the header block has no `:`.
    HeaderLine,
}

/// A response as the server sent it.
pub struct Response {
    pub version: String,
    pub status: String,
    /// The rest of the status line, with its line terminator.
    pub explanation: String,
    /// Lower-case names with their values, one entry per name; for a name
    /// that came more than once, the value that came last.
    pub headers: Vec<(String, String)>,
    /// Present when anything followed the blank line that ends the headers.
    pub body: Option<String>,
}

/// The abstract value of a `Response`.
pub struct ResponseView {
    pub version: Seq<char>,
    pub status: Seq<char>,
    pub explanation: Seq<char>,
    pub headers: Map<Seq<char>, Seq<char>>,
    pub body: Option<Seq<char>>,
}

/// The map that a list of header entries denotes: names to values, the later
/// of two entries with one name taking its place.
pub open spec fn headers_map(h: Seq<(String, String)>) -> Map<Seq<char>, Seq<char>>
    decreases h.len(),
{
    if h.len() == 0 {
        Map::empty()
    } else {
        headers_map(h.drop_last()).insert(h.last().0@, h.last().1@)
    }
}

pub open spec fn option_view(o: Option<String>) -> Option<Seq<char>> {
    match o {
        Some(s) => Some(s@),
        None => None,
    }
}

impl View for Response {
    type V = ResponseView;

    open spec fn view(&self) -> ResponseView {
        ResponseView {
            version: self.version@,
            status: self.status@,
            explanation: self.explanation@,
            headers: headers_map(self.headers@),
            body: option_view(self.body),
        }
    }
}

/// The lower-case form of a text, as std's `str::to_lowercase` gives it.
pub uninterp spec fn lowercase_of(s: Seq<char>) -> Seq<char>;

/// Whether std's `char::is_whitespace` counts `c` as white space.
pub uninterp spec fn whitespace(c: char) -> bool;

/// `s` without its leading white space.
pub open spec fn trim_start(s: Seq<char>) -> Seq<char>
    decreases s.len(),
{
    if s.len() > 0 && whitespace(s[0]) {
        trim_start(s.drop_first())
    } else {
        s
    }
}

/// The first line of `s` with its `\n`, and what follows it.
pub open spec fn split_line(s: Seq<char>) -> (Seq<char>, Seq<char>) {
    match index_of(s, '\n') {
        Some(k) => (s.take(k + 1), s.skip(k + 1)),
        None => (s, Seq::empty()),
    }
}

/// A line without its terminator: a final `\n`, then a final `\r`.
pub open spec fn line_content(line: Seq<char>) -> Seq<char> {
    let a = if line.len() > 0 && line.last() == '\n' {
        line.drop_last()
    } else {
        line
    };
    if a.len() > 0 && a.last() == '\r' {
        a.drop_last()
    } else {
        a
    }
}

/// Reads header lines from `s` into `acc` up to a blank line. Gives the
/// headers and what follows the blank line, if anything does.
pub open spec fn parse_headers(s: Seq<char>, acc: Map<Seq<char>, Seq<char>>) -> Result<
    (Map<Seq<char>, Seq<char>>, Option<Seq<char>>),
    ProtocolError,
>
    decreases s.len() via parse_headers_decreases
{
    if s.len() == 0 {
        Ok((acc, None))
    } else {
        let line = line_content(split_line(s).0);
        let rest = split_line(s).1;
        if line.len() == 0 {
            Ok(
                (
                    acc,
                    if rest.len() > 0 {
                        Some(rest)
                    } else {
                        None
                    },
                ),
            )
        } else {
            match index_of(line, ':') {
                None => Err(ProtocolError::HeaderLine),
                Some(c) => parse_headers(
                    rest,
                    acc.insert(lowercase_of(line.take(c)), trim_start(line.skip(c + 1))),
                ),
            }
        }
    }
}

#[via_fn]
proof fn parse_headers_decreases(s: Seq<char>, acc: Map<Seq<char>, Seq<char>>) {
    lemma_index_of_found(s, '\n');
}

/// What the text of a response parses to. The status line splits at its
/// first two spaces; the explanation keeps the line's terminator.
pub open spec fn parse_response_spec(s: Seq<char>) -> Result<ResponseView, ProtocolError> {
    let line = split_line(s).0;
    match index_of(line, ' ') {
        None => Err(ProtocolError::StatusLine),
        Some(a) => {
            let after = line.skip(a + 1);
            match index_of(after, ' ') {
                None => Err(ProtocolError::StatusLine),
                Some(b) => match parse_headers(split_line(s).1, Map::empty()) {
                    Err(e) => Err(e),
                    Ok((headers, body)) => Ok(
                        ResponseView {
                            version: line.take(a),
                            status: after.take(b),
                            explanation: after.skip(b + 1),
                            headers,
                            body,
                        },
                    ),
                },
            }
        },
    }
}

pub open spec fn response_result_view(r: Result<Response, ProtocolError>) -> Result<
    ResponseView,
    ProtocolError,
> {
    match r {
        Ok(resp) => Ok(resp@),
        Err(e) => Err(e),
    }
}

/// No two entries share a name.
pub open spec fn names_unique(h: Seq<(String, String)>) -> bool {
    forall|i: int, j: int| 0 <= i < j < h.len() ==> h[i].0@ != h[j].0@
}

/// The names of the map are exactly the names of the entries.
proof fn lemma_headers_map_names(h: Seq<(String, String)>, k: Seq<char>)
    ensures
        headers_map(h).contains_key(k) <==> exists|i: int| 0 <= i < h.len() && h[i].0@ == k,
    decreases h.len(),
{
    if h.len() > 0 {
        lemma_headers_map_names(h.drop_last(), k);
        if headers_map(h.drop_last()).contains_key(k) {
            let i = choose|i: int| 0 <= i < h.len() - 1 && h.drop_last()[i].0@ == k;
            assert(h[i].0@ == k);
        }
        if exists|i: int| 0 <= i < h.len() && h[i].0@ == k {
            let i = choose|i: int| 0 <= i < h.len() && h[i].0@ == k;
            if i < h.len() - 1 {
                assert(h.drop_last()[i].0@ == k);
            }
        }
    }
}

/// Replacing the value of an entry changes the map at that name alone.
proof fn lemma_headers_map_update(h: Seq<(String, String)>, i: int, e: (String, String))
    requires
        0 <= i < h.len(),
        names_unique(h),
        h[i].0@ == e.0@,
    ensures
        headers_map(h.update(i, e)) == headers_map(h).insert(e.0@, e.1@),
    decreases h.len(),
{
    let u = h.update(i, e);
    if i == h.len() - 1 {
        assert(u.drop_last() =~= h.drop_last());
    } else {
        assert(u.drop_last() =~= h.drop_last().update(i, e));
        lemma_headers_map_update(h.drop_last(), i, e);
        assert(h.last().0@ != e.0@);
    }
    assert(headers_map(u) =~= headers_map(h).insert(e.0@, e.1@));
}

/// Sets the value of `name`, replacing the value it had.
fn insert_header(headers: &mut Vec<(String, String)>, name: String, value: String)
    requires
        names_unique(old(headers)@),
    ensures
        names_unique(final(headers)@),
        headers_map(final(headers)@) == headers_map(old(headers)@).insert(name@, value@),
{
    let mut i: usize = 0;
    while i < headers.len()
        invariant
            i <= headers.len(),
            headers@ == old(headers)@,
            names_unique(headers@),
            forall|j: int| 0 <= j < i ==> headers@[j].0@ != name@,
        decreases headers.len() - i,
    {
        if headers[i].0 == name {
            proof {
                lemma_headers_map_update(headers@, i as int, (name, value));
            }
            let ghost before = headers@;
            headers.set(i, (name, value));
            assert(forall|j: int| 0 <= j < headers@.len() ==> headers@[j].0@ == before[j].0@);
            return;
        }
        i = i + 1;
    }
    let ghost before = headers@;
    headers.push((name, value));
    assert(headers@.drop_last() =~= before);
    assert(forall|j: int| 0 <= j < before.len() ==> headers@[j] == before[j]);
}

/// Relies on str::to_lowercase: the lower-case form of `s`, which depends on
/// its characters alone.
#[verifier::external_body]
fn to_lowercase(s: &str) -> (r: String)
    ensures
        r@ == lowercase_of(s@),
{
    s.to_lowercase()
}

/// Relies on char::is_whitespace: whether `c` has Unicode's White_Space
/// property, which depends on `c` alone.
#[verifier::external_body]
fn is_whitespace(c: char) -> (r: bool)
    ensures
        r == whitespace(c),
{
    c.is_whitespace()
}

/// Where `v[from..to]` starts once its leading white space is skipped.
fn skip_blanks(v: &Vec<char>, from: usize, to: usize) -> (r: usize)
    requires
        from <= to <= v.len(),
    ensures
        from <= r <= to,
        v@.subrange(r as int, to as int) == trim_start(v@.subrange(from as int, to as int)),
{
    let mut i = from;
    while i < to && is_whitespace(v[i])
        invariant
            from <= i <= to <= v.len(),
            trim_start(v@.subrange(i as int, to as int)) == trim_start(
                v@.subrange(from as int, to as int),
            ),
        decreases to - i,
    {
        assert(v@.subrange(i as int, to as int).drop_first() =~= v@.subrange(i + 1, to as int));
        i = i + 1;
    }
    i
}

/// The value of a name is that of the last entry with the name.
proof fn lemma_headers_map_last(h: Seq<(String, String)>, idx: int, k: Seq<char>)
    requires
        0 <= idx < h.len(),
        h[idx].0@ == k,
        forall|j: int| idx < j < h.len() ==> h[j].0@ != k,
    ensures
        headers_map(h).contains_key(k),
        headers_map(h)[k] == h[idx].1@,
    decreases h.len(),
{
    if idx < h.len() - 1 {
        lemma_headers_map_last(h.drop_last(), idx, k);
    }
}

impl Response {
    /// The value of the header `name` (in lower case), if the response has it.
    pub fn header(&self, name: &str) -> (r: Option<String>)
        ensures
            r matches Some(val) ==> self@.headers.contains_key(name@) && self@.headers[name@]
                == val@,
            r is None ==> !self@.headers.contains_key(name@),
    {
        let key = name.to_owned();
        let mut i = self.headers.len();
        while i > 0
            invariant
                i <= self.headers.len(),
                key@ == name@,
                forall|j: int| i <= j < self.headers.len() ==> self.headers@[j].0@ != name@,
            decreases i,
        {
            if self.headers[i - 1].0 == key {
                proof {
                    lemma_headers_map_last(self.headers@, i - 1, name@);
                }
                return Some(self.headers[i - 1].1.clone());
            }
            i = i - 1;
        }
        proof {
            lemma_headers_map_names(self.headers@, name@);
        }
        None
    }
}

/// Where the line that starts at `v[pos]` ends: its content ends at `r.0`,
/// without its terminator, and the next line starts at `r.1`.
fn line_bounds(v: &Vec<char>, pos: usize) -> (r: (usize, usize))
    requires
        pos < v.len(),
    ensures
        pos <= r.0 <= r.1 <= v.len(),
        pos < r.1,
        line_content(split_line(v@.subrange(pos as int, v.len() as int)).0) == v@.subrange(
            pos as int,
            r.0 as int,
        ),
        split_line(v@.subrange(pos as int, v.len() as int)).1 == v@.subrange(
            r.1 as int,
            v.len() as int,
        ),
{
    let n = v.len();
    let ghost s = v@.subrange(pos as int, n as int);
    proof {
        lemma_index_of_found(s, '\n');
    }
    let (mut ce, next) = match find_char(v, '\n', pos, n) {
        Some(k) => (k, k + 1),
        None => (n, n),
    };
    proof {
        let ln = split_line(s).0;
        assert(ln =~= v@.subrange(pos as int, next as int));
        assert(split_line(s).1 =~= v@.subrange(next as int, n as int));
        if next > ce {
            assert(ln.drop_last() =~= v@.subrange(pos as int, ce as int));
        } else {
            assert(ln =~= v@.subrange(pos as int, ce as int));
        }
    }
    if ce > pos && v[ce - 1] == '\r' {
        assert(v@.subrange(pos as int, ce as int).drop_last() =~= v@.subrange(pos as int, ce - 1));
        ce = ce - 1;
    }
    (ce, next)
}

/// The host, port and path that a request for `u` goes to: those of a web
/// address, or of the web address that a view-source address wraps.
pub open spec fn web_parts(u: UrlView) -> Option<(Seq<char>, u16, Seq<char>)> {
    match u {
        UrlView::Web { host, port, path, .. } => Some((host, port, path)),
        UrlView::ViewSource { inner } => match *inner {
            UrlView::Web { host, port, path, .. } => Some((host, port, path)),
            _ => None,
        },
        _ => None,
    }
}

/// The request target: the path, or `/` where the path is empty.
pub open spec fn request_target(path: Seq<char>) -> Seq<char> {
    if path.len() == 0 {
        seq!['/']
    } else {
        path
    }
}

/// The whole text of a GET request for `path` on `host`.
pub open spec fn request_spec(host: Seq<char>, path: Seq<char>) -> Seq<char> {
    "GET "@ + request_target(path) + " HTTP/1.0\r\n"@ + "Host: "@ + host + "\r\n"@
        + "User-Agent: Goat\r\n"@ + "\r\n"@
}

impl Url {
    /// The host, port and path of this address, or of the web address it
    /// wraps.
    fn web_fields(&self) -> (r: Option<(String, u16, String)>)
        ensures
            r is Some <==> web_parts(self@) is Some,
            r matches Some((rh, rp, rq)) ==> web_parts(self@) == Some((rh@, rp, rq@)),
    {
        match self {
            Url::Web { host, port, path, .. } => Some((host.clone(), *port, path.clone())),
            Url::ViewSource(inner) => {
                let inner: &Url = &**inner;
                assert(web_parts(self@) == web_parts(inner@) || !(inner@ is Web));
                match inner {
                    Url::Web { host, port, path, .. } => Some((host.clone(), *port, path.clone())),
                    _ => None,
                }
            },
            _ => None,
        }
    }

    /// The host and port to connect to, for a web or view-source address.
    pub fn endpoint(&self) -> (r: Option<(String, u16)>)
        ensures
            r is Some <==> web_parts(self@) is Some,
            r matches Some((rh, rp)) ==> (web_parts(self@) matches Some((h, p, _)) && h == rh@ && p
                == rp),
    {
        match self.web_fields() {
            Some((host, port, _)) => Some((host, port)),
            None => None,
        }
    }

    /// The text of the GET request for a web or view-source address.
    pub fn request_text(&self) -> (r: Option<String>)
        ensures
            r is Some <==> web_parts(self@) is Some,
            r matches Some(t) ==> (web_parts(self@) matches Some((h, _, q)) && t@ == request_spec(
                h,
                q,
            )),
    {
        match self.web_fields() {
            Some((host, _, path)) => {
                let mut t = "GET ".to_owned();
                if path.as_str().is_empty() {
                    t.append("/");
                    proof {
                        reveal_strlit("/");
                    }
                } else {
                    t.append(path.as_str());
                }
                t.append(" HTTP/1.0\r\n");
                t.append("Host: ");
                t.append(host.as_str());
                t.append("\r\n");
                t.append("User-Agent: Goat\r\n");
                t.append("\r\n");
                Some(t)
            },
            None => None,
        }
    }
}

/// Reads the header block of `v[from..]` and the body after it.
fn read_headers(text: &str, v: &Vec<char>, from: usize) -> (r: Result<
    (Vec<(String, String)>, Option<String>),
    ProtocolError,
>)
    requires
        v@ == text@,
        from <= v.len(),
    ensures
        match r {
            Ok((h, b)) => names_unique(h@) && parse_headers(
                v@.subrange(from as int, v.len() as int),
                Map::empty(),
            ) == Ok::<_, ProtocolError>((headers_map(h@), option_view(b))),
            Err(e) => parse_headers(v@.subrange(from as int, v.len() as int), Map::empty())
                == Err::<(Map<Seq<char>, Seq<char>>, Option<Seq<char>>), _>(e),
        },
{
    let n = v.len();
    let ghost target = parse_headers(v@.subrange(from as int, n as int), Map::empty());
    let mut headers: Vec<(String, String)> = Vec::new();
    let mut body: Option<String> = None;
    let mut pos = from;
    assert(headers_map(headers@) =~= Map::empty());
    loop
        invariant_except_break
            body is None,
        invariant
            from <= pos <= n,
            n == v.len(),
            target == parse_headers(v@.subrange(from as int, n as int), Map::empty()),
            v@ == text@,
            names_unique(headers@),
            parse_headers(v@.subrange(pos as int, n as int), headers_map(headers@)) == target,
        ensures
            names_unique(headers@),
            target == Ok::<_, ProtocolError>((headers_map(headers@), option_view(body))),
        decreases n - pos,
    {
        let ghost s = v@.subrange(pos as int, n as int);
        if pos == n {
            break;
        }
        let (ce, next) = line_bounds(v, pos);
        let ghost content = v@.subrange(pos as int, ce as int);
        assert(line_content(split_line(s).0) == content);
        if ce == pos {
            if next < n {
                body = Some(text.substring_char(next, n).to_owned());
            }
            break;
        }
        let c = match find_char(v, ':', pos, ce) {
            Some(c) => c,
            None => {
                return Err(ProtocolError::HeaderLine);
            },
        };
        proof {
            lemma_index_of_found(content, ':');
            assert(content.take(c - pos) =~= v@.subrange(pos as int, c as int));
            assert(content.take(c - pos) =~= text@.subrange(pos as int, c as int));
            assert(content.skip(c - pos + 1) =~= v@.subrange(c + 1, ce as int));
        }
        let name = to_lowercase(text.substring_char(pos, c));
        let start = skip_blanks(v, c + 1, ce);
        let value = text.substring_char(start, ce).to_owned();
        insert_header(&mut headers, name, value);
        pos = next;
    }
    Ok((headers, body))
}

#[verifier::rlimit(30)]
/// Parses the text of a response: the status line, the header lines up to a
/// blank line, and what follows that as the body.
pub fn parse_response(text: &str) -> (r: Result<Response, ProtocolError>)
    ensures
        response_result_view(r) == parse_response_spec(text@),
        r matches Ok(resp) ==> names_unique(resp.headers@),
{
    let v = chars_of(text);
    let n = v.len();
    proof {
        lemma_index_of_found(v@, '\n');
    }
    assert(v@.subrange(0, n as int) =~= v@);
    let line_end = match find_char(&v, '\n', 0, n) {
        Some(k) => k + 1,
        None => n,
    };
    assert(split_line(v@).0 =~= v@.subrange(0, line_end as int));
    assert(split_line(v@).1 =~= v@.subrange(line_end as int, n as int));
    let ghost line = v@.subrange(0, line_end as int);
    let a = match find_char(&v, ' ', 0, line_end) {
        Some(a) => a,
        None => return Err(ProtocolError::StatusLine),
    };
    proof {
        lemma_index_of_found(line, ' ');
        assert(line.skip(a + 1) =~= v@.subrange(a + 1, line_end as int));
    }
    let b = match find_char(&v, ' ', a + 1, line_end) {
        Some(b) => b,
        None => return Err(ProtocolError::StatusLine),
    };
    let ghost after = line.skip(a + 1);
    proof {
        lemma_index_of_found(after, ' ');
        assert(line.take(a as int) =~= v@.subrange(0, a as int));
        assert(after.take(b - a - 1) =~= v@.subrange(a + 1, b as int));
        assert(after.skip(b - a) =~= v@.subrange(b + 1, line_end as int));
    }
    let version = text.substring_char(0, a).to_owned();
    let status = text.substring_char(a + 1, b).to_owned();
    let explanation = text.substring_char(b + 1, line_end).to_owned();
    match read_headers(text, &v, line_end) {
        Err(e) => Err(e),
        Ok((headers, body)) => Ok(Response { version, status, explanation, headers, body }),
    }
}

} // verus!
