//! What holds between parsing an address and rendering it back, and how the
//! parts of a response's text come out of parsing it.
use vstd::prelude::*;
use crate::text::{
    index_of,
    last_index_of,
    lemma_index_of,
    lemma_index_of_found,
    lemma_last_index_of,
    lemma_last_index_of_found,
};
use crate::http::{
    line_content,
    lowercase_of,
    parse_headers,
    parse_response_spec,
    split_line,
    trim_start,
    ProtocolError,
    ResponseView,
};
use crate::url::{
    all_digits,
    decimal,
    default_port_of,
    digit_chars,
    digit_value,
    digits_value,
    http_chars,
    https_chars,
    is_digit,
    lemma_port_of_positive,
    parse_spec,
    parse_web_spec,
    port_of,
    render_spec,
    ParseError,
    UrlView,
};

verus! {

/// The decimal text of `n` is a non-empty run of digits that denotes `n`.
pub proof fn lemma_decimal(n: nat)
    ensures
        decimal(n).len() > 0,
        all_digits(decimal(n)),
        digits_value(decimal(n)) == n,
    decreases n,
{
    let d = digit_chars();
    assert(forall|i: int| 0 <= i < 10 ==> is_digit(#[trigger] d[i]) && digit_value(d[i]) == i) by {
        assert(d[0] == '0' && d[1] == '1' && d[2] == '2' && d[3] == '3' && d[4] == '4');
        assert(d[5] == '5' && d[6] == '6' && d[7] == '7' && d[8] == '8' && d[9] == '9');
    }
    if n < 10 {
        assert(decimal(n).drop_last() =~= Seq::<char>::empty());
        assert(is_digit(d[n as int]) && digit_value(d[n as int]) == n);
        assert(digits_value(Seq::<char>::empty()) == 0);
        assert(decimal(n).last() == d[n as int]);
    } else {
        lemma_decimal(n / 10);
        assert(decimal(n).drop_last() =~= decimal(n / 10));
        assert(n == (n / 10) * 10 + n % 10);
        let m = (n % 10) as int;
        assert(is_digit(d[m]) && digit_value(d[m]) == m);
        assert(decimal(n).last() == d[m]);
        assert(digits_value(decimal(n)) == digits_value(decimal(n / 10)) * 10 + m);
    }
}

/// The text after `scheme:` of a rendered web address parses back to it.
proof fn lemma_parse_web_rendered(scheme: Seq<char>, host: Seq<char>, port: u16, path: Seq<char>)
    requires
        host.len() > 0,
        forall|i: int| 0 <= i < host.len() ==> host[i] != '/',
        port > 0,
        path.len() == 0 || path[0] == '/',
    ensures
        parse_web_spec(scheme, seq!['/', '/'] + host + seq![':'] + decimal(port as nat) + path)
            == Ok::<UrlView, ParseError>(UrlView::Web { scheme, host, port, path }),
{
    let dec = decimal(port as nat);
    lemma_decimal(port as nat);
    let rest = seq!['/', '/'] + host + seq![':'] + dec + path;
    let r = host + seq![':'] + dec;
    let tail = r + path;
    assert(rest.skip(2) =~= tail);
    let e = r.len() as int;
    assert forall|j: int| 0 <= j < e implies tail[j] != '/' by {
        if j < host.len() {
            assert(tail[j] == host[j]);
        } else if j > host.len() {
            assert(tail[j] == dec[j - host.len() - 1]);
            assert(is_digit(dec[j - host.len() - 1]));
        }
    }
    if path.len() > 0 {
        lemma_index_of(tail, '/', e);
        assert(tail.take(e) =~= r);
        assert(tail.skip(e) =~= path);
    } else {
        assert(tail =~= r);
        lemma_index_of(tail, '/', e);
    }
    let h = host.len() as int;
    assert forall|j: int| h < j < r.len() implies r[j] != ':' by {
        assert(r[j] == dec[j - h - 1]);
        assert(is_digit(dec[j - h - 1]));
    }
    lemma_last_index_of(r, ':', h);
    assert(r.take(h) =~= host);
    assert(r.skip(h + 1) =~= dec);
    assert(rest[0] == '/' && rest[1] == '/');
    assert(port_of(dec) == Some(port)) by {
        reveal(port_of);
        assert(is_digit(dec[0]));
    }
    assert(last_index_of(r, ':') == Some(h));
    assert(rest.skip(2) == tail);
    if path.len() > 0 {
        assert(index_of(tail, '/') == Some(e));
        assert(tail.take(e) == r);
        assert(tail.skip(e) == path);
    } else {
        assert(index_of(tail, '/') is None);
        assert(tail == r);
        assert(path == Seq::<char>::empty());
    }
}

/// A web scheme and what follows its `:` are found again in `scheme:rest`.
proof fn lemma_parse_web_scheme(scheme: Seq<char>, rest: Seq<char>)
    requires
        scheme == http_chars() || scheme == https_chars(),
    ensures
        parse_spec(scheme + seq![':'] + rest) == parse_web_spec(scheme, rest),
{
    let s = scheme + seq![':'] + rest;
    let k = scheme.len() as int;
    assert forall|j: int| 0 <= j < k implies s[j] != ':' by {
        assert(s[j] == scheme[j]);
    }
    lemma_index_of(s, ':', k);
    assert(s.take(k) =~= scheme);
    assert(s.skip(k + 1) =~= rest);
}

/// Rendering a well-formed web address and parsing the text gives the same
/// address back: the port is written in decimal, and the path, empty or
/// starting with `/`, comes back exactly.
pub proof fn lemma_parse_render_web(scheme: Seq<char>, host: Seq<char>, port: u16, path: Seq<char>)
    requires
        scheme == http_chars() || scheme == https_chars(),
        host.len() > 0,
        forall|i: int| 0 <= i < host.len() ==> host[i] != '/',
        port > 0,
        path.len() == 0 || path[0] == '/',
    ensures
        parse_spec(render_spec(UrlView::Web { scheme, host, port, path })) == Ok::<
            UrlView,
            ParseError,
        >(UrlView::Web { scheme, host, port, path }),
{
    let rest = seq!['/', '/'] + host + seq![':'] + decimal(port as nat) + path;
    assert(render_spec(UrlView::Web { scheme, host, port, path }) =~= scheme + seq![':'] + rest);
    lemma_parse_web_scheme(scheme, rest);
    lemma_parse_web_rendered(scheme, host, port, path);
}

/// A web address written without a port parses with the scheme's default
/// port, and its path is what follows the host, exactly as written.
proof fn lemma_parse_web_default_port(scheme: Seq<char>, host: Seq<char>, path: Seq<char>)
    requires
        host.len() > 0,
        forall|i: int| 0 <= i < host.len() ==> host[i] != ':' && host[i] != '/',
        path.len() == 0 || path[0] == '/',
    ensures
        parse_web_spec(scheme, seq!['/', '/'] + host + path) == Ok::<UrlView, ParseError>(
            UrlView::Web { scheme, host, port: default_port_of(scheme), path },
        ),
{
    let rest = seq!['/', '/'] + host + path;
    let tail = host + path;
    assert(rest.skip(2) =~= tail);
    let h = host.len() as int;
    assert forall|j: int| 0 <= j < h implies tail[j] != '/' by {
        assert(tail[j] == host[j]);
    }
    lemma_index_of(tail, '/', h);
    lemma_last_index_of(host, ':', -1);
    assert(rest[0] == '/' && rest[1] == '/');
    assert(rest.skip(2) == tail);
    assert(last_index_of(host, ':') is None);
    if path.len() > 0 {
        assert(tail.take(h) =~= host);
        assert(tail.skip(h) =~= path);
        assert(index_of(tail, '/') == Some(h));
    } else {
        assert(tail =~= host);
        assert(index_of(tail, '/') is None);
        assert(path == Seq::<char>::empty());
    }
}

/// Parsing `scheme://host` followed by a path, then rendering the result,
/// gives the same text with the default port written out after the host; the
/// path, and so a trailing `/` or its absence, is kept exactly.
pub proof fn lemma_render_parse_web(scheme: Seq<char>, host: Seq<char>, path: Seq<char>)
    requires
        scheme == http_chars() || scheme == https_chars(),
        host.len() > 0,
        forall|i: int| 0 <= i < host.len() ==> host[i] != ':' && host[i] != '/',
        path.len() == 0 || path[0] == '/',
    ensures
        parse_spec(scheme + seq![':', '/', '/'] + host + path) matches Ok(u) && render_spec(u)
            == scheme + seq![':', '/', '/'] + host + seq![':'] + decimal(
            default_port_of(scheme) as nat,
        ) + path,
{
    let rest = seq!['/', '/'] + host + path;
    assert(scheme + seq![':', '/', '/'] + host + path =~= scheme + seq![':'] + rest);
    lemma_parse_web_scheme(scheme, rest);
    lemma_parse_web_default_port(scheme, host, path);
}

/// Whatever web address parsing yields, rendering it and parsing the text
/// gives that address again.
pub proof fn lemma_parse_render_parse(s: Seq<char>)
    requires
        parse_spec(s) matches Ok(u) && u is Web,
    ensures
        parse_spec(render_spec(parse_spec(s)->Ok_0)) == parse_spec(s),
{
    lemma_index_of_found(s, ':');
    let i = index_of(s, ':')->Some_0;
    let scheme = s.take(i);
    let rest = s.skip(i + 1);
    if scheme == http_chars() || scheme == https_chars() {
        let r = rest.skip(2);
        lemma_index_of_found(r, '/');
        let host_port = match index_of(r, '/') {
            Some(k) => r.take(k),
            None => r,
        };
        lemma_last_index_of_found(host_port, ':');
        let u = parse_spec(s)->Ok_0;
        let host = u->Web_host;
        assert forall|j: int| 0 <= j < host.len() implies host[j] != '/' by {
            assert(host[j] == host_port[j]);
            assert(host_port[j] == r[j]);
        }
        if let Some(c) = last_index_of(host_port, ':') {
            lemma_port_of_positive(host_port.skip(c + 1));
        }
        lemma_parse_render_web(scheme, host, u->Web_port, u->Web_path);
    } else {
        assert(false) by {
            reveal_with_fuel(parse_spec, 2);
        }
    }
}

/// Text with no `:` at all has no scheme, and is malformed.
pub proof fn lemma_no_scheme_malformed(s: Seq<char>)
    requires
        forall|i: int| 0 <= i < s.len() ==> s[i] != ':',
    ensures
        parse_spec(s) == Err::<UrlView, ParseError>(ParseError::MalformedUrl),
{
    lemma_index_of(s, ':', s.len() as int);
}

/// A web address whose port text is not a port in `1..=65535` is rejected
/// for its port, whatever its host and path.
pub proof fn lemma_bad_port_invalid(
    scheme: Seq<char>,
    host: Seq<char>,
    port: Seq<char>,
    path: Seq<char>,
)
    requires
        scheme == http_chars() || scheme == https_chars(),
        forall|i: int| 0 <= i < host.len() ==> host[i] != '/',
        forall|i: int| 0 <= i < port.len() ==> port[i] != ':' && port[i] != '/',
        port_of(port) is None,
        path.len() == 0 || path[0] == '/',
    ensures
        parse_spec(scheme + seq![':', '/', '/'] + host + seq![':'] + port + path) == Err::<
            UrlView,
            ParseError,
        >(ParseError::InvalidPort),
{
    let rest = seq!['/', '/'] + host + seq![':'] + port + path;
    assert(scheme + seq![':', '/', '/'] + host + seq![':'] + port + path =~= scheme + seq![':']
        + rest);
    lemma_parse_web_scheme(scheme, rest);
    let r = host + seq![':'] + port;
    let tail = r + path;
    assert(rest.skip(2) =~= tail);
    let e = r.len() as int;
    let h = host.len() as int;
    assert forall|j: int| 0 <= j < e implies tail[j] != '/' by {
        if j < h {
            assert(tail[j] == host[j]);
        } else if j > h {
            assert(tail[j] == port[j - h - 1]);
        }
    }
    lemma_index_of(tail, '/', e);
    assert forall|j: int| h < j < r.len() implies r[j] != ':' by {
        assert(r[j] == port[j - h - 1]);
    }
    lemma_last_index_of(r, ':', h);
    assert(r.skip(h + 1) =~= port);
    assert(rest[0] == '/' && rest[1] == '/');
    assert(rest.skip(2) == tail);
    if path.len() > 0 {
        assert(tail.take(e) =~= r);
    } else {
        assert(tail =~= r);
    }
}

/// A header line `name:value` ends in CRLF: the block after it is read
/// with `lowercase_of(name)` set to `value` without its leading white space,
/// in place of any earlier value of that name.
pub proof fn lemma_header_line(
    name: Seq<char>,
    value: Seq<char>,
    rest: Seq<char>,
    acc: Map<Seq<char>, Seq<char>>,
)
    requires
        forall|i: int| 0 <= i < name.len() ==> name[i] != ':' && name[i] != '\n',
        forall|i: int| 0 <= i < value.len() ==> value[i] != '\n',
    ensures
        parse_headers(name + seq![':'] + value + seq!['\r', '\n'] + rest, acc) == parse_headers(
            rest,
            acc.insert(lowercase_of(name), trim_start(value)),
        ),
{
    let content = name + seq![':'] + value;
    let line = content + seq!['\r', '\n'];
    let s = line + rest;
    assert(name + seq![':'] + value + seq!['\r', '\n'] + rest =~= s);
    let k = line.len() - 1;
    assert forall|j: int| 0 <= j < k implies s[j] != '\n' by {
        if j < name.len() {
            assert(s[j] == name[j]);
        } else if name.len() < j < content.len() {
            assert(s[j] == value[j - name.len() - 1]);
        }
    }
    lemma_index_of(s, '\n', k);
    assert(s.take(k + 1) =~= line);
    assert(s.skip(k + 1) =~= rest);
    assert(line.drop_last().drop_last() =~= content);
    assert(line_content(split_line(s).0) == content);
    assert forall|j: int| 0 <= j < name.len() implies content[j] != ':' by {
        assert(content[j] == name[j]);
    }
    lemma_index_of(content, ':', name.len() as int);
    assert(content.take(name.len() as int) =~= name);
    assert(content.skip(name.len() as int + 1) =~= value);
}

/// A blank line ends the header block; what follows it, if anything, is the
/// body.
pub proof fn lemma_blank_line(body: Seq<char>, acc: Map<Seq<char>, Seq<char>>)
    ensures
        parse_headers(seq!['\r', '\n'] + body, acc) == Ok::<_, ProtocolError>(
            (
                acc,
                if body.len() > 0 {
                    Some(body)
                } else {
                    None
                },
            ),
        ),
{
    let s = seq!['\r', '\n'] + body;
    lemma_index_of(s, '\n', 1);
    assert(s.take(2) =~= seq!['\r', '\n']);
    assert(s.skip(2) =~= body);
    assert(seq!['\r', '\n'].drop_last().drop_last() =~= Seq::<char>::empty());
    assert(line_content(split_line(s).0).len() == 0);
}

/// A status line `version status explanation` ends in CRLF, where version and
/// status hold no space: the response has those three parts, the explanation
/// keeping its CRLF, and the headers and body that the rest gives.
pub proof fn lemma_status_line(
    version: Seq<char>,
    status: Seq<char>,
    explanation: Seq<char>,
    rest: Seq<char>,
)
    requires
        forall|i: int| 0 <= i < version.len() ==> version[i] != ' ' && version[i] != '\n',
        forall|i: int| 0 <= i < status.len() ==> status[i] != ' ' && status[i] != '\n',
        forall|i: int| 0 <= i < explanation.len() ==> explanation[i] != '\n',
    ensures
        parse_response_spec(
            version + seq![' '] + status + seq![' '] + explanation + seq!['\r', '\n'] + rest,
        ) == match parse_headers(rest, Map::empty()) {
            Err(e) => Err(e),
            Ok((headers, body)) => Ok(
                ResponseView {
                    version,
                    status,
                    explanation: explanation + seq!['\r', '\n'],
                    headers,
                    body,
                },
            ),
        },
{
    let expl = explanation + seq!['\r', '\n'];
    let after = status + seq![' '] + expl;
    let line = version + seq![' '] + after;
    let s = line + rest;
    assert(version + seq![' '] + status + seq![' '] + explanation + seq!['\r', '\n'] + rest
        =~= s);
    let v = version.len() as int;
    let a = after.len() as int;
    let k = line.len() - 1;
    assert forall|j: int| 0 <= j < k implies s[j] != '\n' by {
        if j < v {
            assert(s[j] == version[j]);
        } else if j > v {
            assert(s[j] == after[j - v - 1]);
            if j - v - 1 < status.len() {
                assert(after[j - v - 1] == status[j - v - 1]);
            } else if j - v - 1 > status.len() {
                assert(after[j - v - 1] == expl[j - v - 2 - status.len()]);
            }
        }
    }
    lemma_index_of(s, '\n', k);
    assert(s.take(k + 1) =~= line);
    assert(s.skip(k + 1) =~= rest);
    assert forall|j: int| 0 <= j < v implies line[j] != ' ' by {
        assert(line[j] == version[j]);
    }
    lemma_index_of(line, ' ', v);
    assert(line.take(v) =~= version);
    assert(line.skip(v + 1) =~= after);
    assert forall|j: int| 0 <= j < status.len() implies after[j] != ' ' by {
        assert(after[j] == status[j]);
    }
    lemma_index_of(after, ' ', status.len() as int);
    assert(after.take(status.len() as int) =~= status);
    assert(after.skip(status.len() as int + 1) =~= expl);
}

/// A response with one header line and a non-empty body: the header is found
/// under the lower-case form of its name with its value trimmed, and the body
/// is exactly what followed the blank line.
pub proof fn lemma_one_header_response(
    version: Seq<char>,
    status: Seq<char>,
    explanation: Seq<char>,
    name: Seq<char>,
    value: Seq<char>,
    body: Seq<char>,
)
    requires
        forall|i: int| 0 <= i < version.len() ==> version[i] != ' ' && version[i] != '\n',
        forall|i: int| 0 <= i < status.len() ==> status[i] != ' ' && status[i] != '\n',
        forall|i: int| 0 <= i < explanation.len() ==> explanation[i] != '\n',
        forall|i: int| 0 <= i < name.len() ==> name[i] != ':' && name[i] != '\n',
        forall|i: int| 0 <= i < value.len() ==> value[i] != '\n',
        body.len() > 0,
    ensures
        parse_response_spec(
            version + seq![' '] + status + seq![' '] + explanation + seq!['\r', '\n'] + name
                + seq![':'] + value + seq!['\r', '\n'] + seq!['\r', '\n'] + body,
        ) == Ok::<_, ProtocolError>(
            ResponseView {
                version,
                status,
                explanation: explanation + seq!['\r', '\n'],
                headers: Map::<Seq<char>, Seq<char>>::empty().insert(
                    lowercase_of(name),
                    trim_start(value),
                ),
                body: Some(body),
            },
        ),
{
    let blank = seq!['\r', '\n'] + body;
    let rest = name + seq![':'] + value + seq!['\r', '\n'] + blank;
    assert(version + seq![' '] + status + seq![' '] + explanation + seq!['\r', '\n'] + name
        + seq![':'] + value + seq!['\r', '\n'] + seq!['\r', '\n'] + body =~= version + seq![' ']
        + status + seq![' '] + explanation + seq!['\r', '\n'] + rest);
    lemma_status_line(version, status, explanation, rest);
    lemma_header_line(name, value, blank, Map::empty());
    lemma_blank_line(
        body,
        Map::<Seq<char>, Seq<char>>::empty().insert(lowercase_of(name), trim_start(value)),
    );
}

} // verus!
