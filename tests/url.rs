use goat::{ParseError, Url};

#[test]
fn url_exampleorg() {
    let url = Url::new("http://example.org/");
    match url {
        Url::Web {
            scheme,
            host,
            port,
            path,
        } => {
            assert_eq!(scheme, "http".to_string());
            assert_eq!(host, "example.org".to_string());
            assert_eq!(port, 80);
            assert_eq!(path, "/");
        }
        _ => unreachable!(),
    };
}

#[test]
fn url_exampleorg_no_slash() {
    let url = Url::new("http://example.org");
    match url {
        Url::Web {
            scheme,
            host,
            port,
            path,
        } => {
            assert_eq!(scheme, "http".to_string());
            assert_eq!(host, "example.org".to_string());
            assert_eq!(port, 80);
            assert_eq!(path, "");
        }
        _ => unreachable!(),
    };
}

#[test]
fn url_with_path() {
    let url = Url::new("http://example.org/my/path");
    match url {
        Url::Web {
            scheme,
            host,
            port,
            path,
        } => {
            assert_eq!(scheme, "http".to_string());
            assert_eq!(host, "example.org".to_string());
            assert_eq!(port, 80);
            assert_eq!(path, "/my/path");
        }
        _ => unreachable!(),
    };
}

#[test]
fn url_with_host_port() {
    let url = Url::new("http://127.0.0.1:1234/");
    match url {
        Url::Web {
            scheme,
            host,
            port,
            path,
        } => {
            assert_eq!(scheme, "http".to_string());
            assert_eq!(host, "127.0.0.1".to_string());
            assert_eq!(port, 1234);
            assert_eq!(path, "/");
        }
        _ => unreachable!(),
    };
}

#[test]
fn url_with_host_port_path() {
    let url = Url::new("http://127.0.0.1:1234/my/path/hello");
    match url {
        Url::Web {
            scheme,
            host,
            port,
            path,
        } => {
            assert_eq!(scheme, "http".to_string());
            assert_eq!(host, "127.0.0.1".to_string());
            assert_eq!(port, 1234);
            assert_eq!(path, "/my/path/hello");
        }
        _ => unreachable!(),
    };
}

#[test]
fn url_with_https() {
    let url = Url::new("https://example.org");
    match url {
        Url::Web {
            scheme,
            host,
            port,
            path,
        } => {
            assert_eq!(scheme, "https".to_string());
            assert_eq!(host, "example.org".to_string());
            assert_eq!(port, 443);
            assert_eq!(path, "");
        }
        _ => unreachable!(),
    };
}

#[test]
fn data_scheme() {
    let raw_url = "data:text/html,Hello world!";
    let url = Url::new(raw_url);
    match url {
        Url::Data(scheme, mimetype, data) => {
            assert_eq!(scheme, "data".to_string());
            assert_eq!(mimetype, "text/html".to_string());
            assert_eq!(data, "Hello world!".to_string());
        }
        _ => unreachable!(),
    };
}

#[test]
fn view_source() {
    let raw_url = "view-source:http://localhost:8888/data/index.html";
    let url = Url::new(raw_url);
    let the_source = match url {
        Url::ViewSource(the_source) => the_source,
        _ => unreachable!(),
    };

    match *the_source {
        Url::Web {
            scheme,
            host,
            port,
            path,
        } => {
            assert_eq!(scheme, "http".to_string());
            assert_eq!(host, "localhost".to_string());
            assert_eq!(port, 8888);
            assert_eq!(path, "/data/index.html");
        }
        _ => unreachable!(),
    }
}

fn parse_error(raw: &str) -> ParseError {
    match Url::parse(raw) {
        Err(e) => e,
        Ok(u) => panic!("parsed as {}", u.render()),
    }
}

#[test]
fn file_scheme_keeps_path_verbatim() {
    match Url::parse("file:///home/me/data/index%20x.html").unwrap() {
        Url::File(scheme, path) => {
            assert_eq!(scheme, "file");
            assert_eq!(path, "/home/me/data/index%20x.html");
        }
        _ => unreachable!(),
    }
}

#[test]
fn data_keeps_later_commas_in_data() {
    match Url::parse("data:text/plain,a,b,c").unwrap() {
        Url::Data(_, mimetype, data) => {
            assert_eq!(mimetype, "text/plain");
            assert_eq!(data, "a,b,c");
        }
        _ => unreachable!(),
    }
}

#[test]
fn trailing_slash_kept_on_deeper_path() {
    match Url::parse("http://example.org/a/b/").unwrap() {
        Url::Web { path, .. } => assert_eq!(path, "/a/b/"),
        _ => unreachable!(),
    }
}

#[test]
fn port_split_at_last_colon() {
    match Url::parse("http://a:b:8080/x").unwrap() {
        Url::Web { host, port, path, .. } => {
            assert_eq!(host, "a:b");
            assert_eq!(port, 8080);
            assert_eq!(path, "/x");
        }
        _ => unreachable!(),
    }
}

#[test]
fn largest_port_accepted() {
    match Url::parse("https://h:65535").unwrap() {
        Url::Web { port, path, .. } => {
            assert_eq!(port, 65535);
            assert_eq!(path, "");
        }
        _ => unreachable!(),
    }
}

#[test]
fn invalid_port_is_an_error() {
    assert_eq!(parse_error("http://host:abc/"), ParseError::InvalidPort);
    assert_eq!(parse_error("http://host:/"), ParseError::InvalidPort);
    assert_eq!(parse_error("http://host:0/"), ParseError::InvalidPort);
    assert_eq!(parse_error("http://host:65536/"), ParseError::InvalidPort);
    assert_eq!(parse_error("http://host:99999999999999999999/"), ParseError::InvalidPort);
    assert_eq!(parse_error("http://host:+/"), ParseError::InvalidPort);
    assert_eq!(parse_error("http://host:++80/"), ParseError::InvalidPort);
    assert_eq!(parse_error("http://host:8+0/"), ParseError::InvalidPort);
}

#[test]
fn port_may_have_a_plus_sign() {
    match Url::parse("http://host:+80/x").unwrap() {
        Url::Web { host, port, path, .. } => {
            assert_eq!(host, "host");
            assert_eq!(port, 80);
            assert_eq!(path, "/x");
        }
        _ => unreachable!(),
    }
}

#[test]
fn missing_scheme_delimiter_is_malformed() {
    assert_eq!(parse_error("example.org"), ParseError::MalformedUrl);
    assert_eq!(parse_error(""), ParseError::MalformedUrl);
}

#[test]
fn missing_required_delimiters_are_malformed() {
    assert_eq!(parse_error("http:example.org"), ParseError::MalformedUrl);
    assert_eq!(parse_error("https:/example.org"), ParseError::MalformedUrl);
    assert_eq!(parse_error("file:/etc/hosts"), ParseError::MalformedUrl);
    assert_eq!(parse_error("data:text/html"), ParseError::MalformedUrl);
    assert_eq!(parse_error("http:///path"), ParseError::MalformedUrl);
}

#[test]
fn unknown_scheme_is_unsupported() {
    assert_eq!(parse_error("ftp://example.org/"), ParseError::UnsupportedScheme);
    assert_eq!(parse_error("HTTP://example.org/"), ParseError::UnsupportedScheme);
}

#[test]
fn view_source_needs_a_web_address() {
    assert_eq!(parse_error("view-source:data:text/html,x"), ParseError::UnsupportedScheme);
    assert_eq!(
        parse_error("view-source:view-source:http://a/"),
        ParseError::UnsupportedScheme
    );
    assert_eq!(parse_error("view-source:http://a:x/"), ParseError::InvalidPort);
}

#[test]
fn render_web_writes_the_port() {
    assert_eq!(
        Url::new("http://example.org/").render(),
        "http://example.org:80/"
    );
    assert_eq!(Url::new("http://example.org").render(), "http://example.org:80");
    assert_eq!(
        Url::new("https://127.0.0.1:1234/my/path/").render(),
        "https://127.0.0.1:1234/my/path/"
    );
    assert_eq!(Url::new("http://h:7/").render(), "http://h:7/");
}

#[test]
fn render_other_variants() {
    assert_eq!(Url::new("file:///tmp/x").render(), "file:///tmp/x");
    assert_eq!(
        Url::new("data:text/html,Hello world!").render(),
        "data://text/html,Hello world!"
    );
    assert_eq!(
        Url::new("view-source:http://localhost:8888/data/index.html").render(),
        "view-source:http://localhost:8888/data/index.html"
    );
}

#[test]
fn render_then_parse_gives_the_address_again() {
    for raw in [
        "http://example.org",
        "http://example.org/",
        "https://a.b:8443/x/y/",
        "http://h:0080/p?q#f",
    ] {
        let first = Url::parse(raw).unwrap();
        let again = Url::parse(&first.render()).unwrap();
        assert_eq!(again.render(), first.render());
        match (first, again) {
            (
                Url::Web { scheme: s1, host: h1, port: p1, path: q1 },
                Url::Web { scheme: s2, host: h2, port: p2, path: q2 },
            ) => {
                assert_eq!((s1, h1, p1, q1), (s2, h2, p2, q2));
            }
            _ => unreachable!(),
        }
    }
}

#[test]
fn unicode_text_is_kept() {
    match Url::parse("http://bücher.example/straße/").unwrap() {
        Url::Web { host, path, .. } => {
            assert_eq!(host, "bücher.example");
            assert_eq!(path, "/straße/");
        }
        _ => unreachable!(),
    }
}
