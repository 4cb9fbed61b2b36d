use saba_core::url::Url;

fn check(url: &str, host: &str, port: &str, path: &str, searchpart: &str) {
    let parsed = Url::new(url).parse().expect("an http url");
    assert_eq!(parsed.url(), url);
    assert_eq!(parsed.host(), host);
    assert_eq!(parsed.port(), port);
    assert_eq!(parsed.path(), path);
    assert_eq!(parsed.searchpart(), searchpart);
}

#[test]
fn test_url() {
    let url = "http://example.com".to_string();
    check(&url, "example.com", "80", "", "");
}

#[test]
fn test_url_with_port() {
    let url = "http://example.com:8888".to_string();
    check(&url, "example.com", "8888", "", "");
}

#[test]
fn test_url_with_path() {
    let url = "http://example.com/index.html".to_string();
    check(&url, "example.com", "80", "index.html", "");
}

#[test]
fn test_url_with_port_path() {
    let url = "http://example.com:8888/index.html".to_string();
    check(&url, "example.com", "8888", "index.html", "");
}

#[test]
fn test_url_with_port_path_searchpart() {
    let url = "http://example.com:8888/index.html?a=123&b=456".to_string();
    check(&url, "example.com", "8888", "index.html", "a=123&b=456");
}

#[test]
fn test_localhost() {
    let url = "http://localhost:8000".to_string();
    check(&url, "localhost", "8000", "", "");
}

#[test]
fn test_no_scheme() {
    let url = "example.com".to_string();
    let expected = Err("Only HTTP scheme is supported.".to_string());
    assert_eq!(expected, Url::new(&url).parse());
}

#[test]
fn test_unsupported_scheme() {
    let url = "https://example.com:8888/index.html".to_string();
    let expected = Err("Only HTTP scheme is supported.".to_string());
    assert_eq!(expected, Url::new(&url).parse());
}

#[test]
fn a_new_url_has_empty_parts() {
    let url = Url::new("http://example.com/a");
    assert_eq!(url.url(), "http://example.com/a");
    assert_eq!(url.host(), "");
    assert_eq!(url.port(), "");
    assert_eq!(url.path(), "");
    assert_eq!(url.searchpart(), "");
}

#[test]
fn a_colon_in_the_path_is_no_port() {
    check("http://example.com/a:b?c:d", "example.com", "80", "a:b", "c:d");
}

#[test]
fn the_query_keeps_its_question_marks_and_slashes() {
    check("http://h/p/q?a?b/c", "h", "80", "p/q", "a?b/c");
}

#[test]
fn an_empty_port_stays_empty() {
    check("http://example.com:/x", "example.com", "", "x", "");
}

#[test]
fn only_what_stands_before_a_second_colon_is_the_port() {
    check("http://h:1:2/x", "h", "1", "x", "");
}

#[test]
fn a_repeated_scheme_is_taken_off_too() {
    check("http://http://h/x", "h", "80", "x", "");
}

#[test]
fn the_scheme_alone_has_an_empty_host() {
    check("http://", "", "80", "", "");
}

#[test]
fn a_scheme_in_upper_case_is_not_http() {
    assert!(Url::new("HTTP://example.com").parse().is_err());
    assert!(Url::new("http:/example.com").parse().is_err());
    assert!(Url::new("").parse().is_err());
}

/// Strings over a few characters, in an order that is the same at every run.
fn samples(alphabet: &[&str], count: usize, longest: usize) -> Vec<String> {
    let mut state: u64 = 0x9E3779B97F4A7C15;
    let mut next = move || {
        state ^= state << 13;
        state ^= state >> 7;
        state ^= state << 17;
        state
    };
    let mut all = Vec::new();
    for _ in 0..count {
        let len = (next() % (longest as u64 + 1)) as usize;
        let mut s = String::new();
        for _ in 0..len {
            s.push_str(alphabet[(next() % alphabet.len() as u64) as usize]);
        }
        all.push(s);
    }
    all
}

/// The parts of a URL, taken with the string functions of the standard library.
fn with_std(url: &str) -> Option<(String, String, String, String)> {
    if !url.starts_with("http://") {
        return None;
    }
    let rest = url.trim_start_matches("http://");
    let host = rest
        .split('/')
        .next()
        .and_then(|host_port| host_port.split(':').next())
        .map(|x| x.to_string())?;
    let port = rest
        .split('/')
        .next()
        .and_then(|host_port| host_port.split(':').nth(1))
        .unwrap_or("80")
        .to_string();
    let path = rest
        .splitn(2, "/")
        .nth(1)
        .and_then(|path_and_searchpart| path_and_searchpart.splitn(2, "?").nth(0))
        .unwrap_or("")
        .to_string();
    let searchpart = rest
        .splitn(2, "/")
        .nth(1)
        .and_then(|path_and_searchpart| path_and_searchpart.splitn(2, "?").nth(1))
        .unwrap_or("")
        .to_string();
    Some((host, port, path, searchpart))
}

#[test]
fn urls_are_taken_apart_as_the_standard_string_functions_take_them() {
    let alphabet = ["http://", "h", "t", "p", ":", "/", "?", "a", "8", "http:/", ":", "/"];
    let mut some = 0;
    for url in samples(&alphabet, 60000, 9) {
        let expected = with_std(&url);
        match Url::new(&url).parse() {
            Ok(u) => {
                assert_eq!(u.url(), url);
                assert_eq!(
                    Some((u.host(), u.port(), u.path(), u.searchpart())),
                    expected,
                    "{:?}",
                    url
                );
                some += 1;
            }
            Err(e) => {
                assert_eq!(e, "Only HTTP scheme is supported.");
                assert_eq!(None, expected, "{:?}", url);
            }
        }
    }
    assert!(some > 1000);
}
