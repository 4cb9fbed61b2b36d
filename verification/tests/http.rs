use saba_core::error::Error;
use saba_core::http::{HttpClient, HttpResponse};

#[test]
fn test_invalid() {
    let raw = "HTTP/1.1 200 OK".to_string();
    assert!(HttpResponse::new(raw).is_err());
}

#[test]
fn test_status_line_only() {
    let raw = "HTTP/1.1 200 OK\n\n".to_string();
    let res = HttpResponse::new(raw).expect("failed to parse http response");
    assert_eq!(res.version(), "HTTP/1.1");
    assert_eq!(res.status_code(), 200);
    assert_eq!(res.reason(), "OK");
}

#[test]
fn test_one_header() {
    let raw = "HTTP/1.1 200 OK\nDate:xx xx xx\n\n".to_string();
    let res = HttpResponse::new(raw).expect("failed to parse http response");
    assert_eq!(res.version(), "HTTP/1.1");
    assert_eq!(res.status_code(), 200);
    assert_eq!(res.reason(), "OK");

    assert_eq!(res.header_value("Date"), Ok("xx xx xx".to_string()));
}

#[test]
fn test_two_headers_with_white_space() {
    let raw = "HTTP/1.1 200 OK\nDate: xx xx xx\nContent-Length: 42\n\n".to_string();
    let res = HttpResponse::new(raw).expect("failed to parse http response");
    assert_eq!(res.version(), "HTTP/1.1");
    assert_eq!(res.status_code(), 200);
    assert_eq!(res.reason(), "OK");

    assert_eq!(res.header_value("Date"), Ok("xx xx xx".to_string()));
    assert_eq!(res.header_value("Content-Length"), Ok("42".to_string()));
}

#[test]
fn http_test_body() {
    let raw = "HTTP/1.1 200 OK\nDate: xx xx xx\n\nbody message".to_string();
    let res = HttpResponse::new(raw).expect("failed to parse http response");
    assert_eq!(res.version(), "HTTP/1.1");
    assert_eq!(res.status_code(), 200);
    assert_eq!(res.reason(), "OK");

    assert_eq!(res.header_value("Date"), Ok("xx xx xx".to_string()));

    assert_eq!(res.body(), "body message".to_string());
}

#[test]
fn test_crlf() {
    let raw = "HTTP/1.1 200 OK\r\nDate: xx xx xx\r\n\r\nbody message".to_string();
    let res = HttpResponse::new(raw).expect("failed to parse http response");
    assert_eq!(res.version(), "HTTP/1.1");
    assert_eq!(res.status_code(), 200);
    assert_eq!(res.reason(), "OK");

    assert_eq!(res.header_value("Date"), Ok("xx xx xx".to_string()));

    assert_eq!(res.body(), "body message".to_string());
}

fn network_error(raw: &str) -> String {
    match HttpResponse::new(raw.to_string()) {
        Err(Error::Network(m)) => m,
        other => panic!("expected a network error, got {:?}", other),
    }
}

#[test]
fn a_text_of_one_line_is_named_in_the_error() {
    assert_eq!(network_error("  HTTP/1.1 200 OK"), "invalid http response: HTTP/1.1 200 OK");
    assert_eq!(network_error(""), "invalid http response: ");
}

#[test]
fn a_header_without_a_colon_is_named_in_the_error() {
    assert_eq!(
        network_error("HTTP/1.1 200 OK\nDate: x\nbroken\n\nbody"),
        "invalid http header: broken"
    );
}

#[test]
fn a_status_code_that_is_no_number_is_404() {
    for line in ["HTTP/1.1 abc OK", "HTTP/1.1", "HTTP/1.1  200 OK", "HTTP/1.1 4294967296 OK", "HTTP/1.1 -1 OK", "HTTP/1.1 + OK", "HTTP/1.1 20x OK"] {
        let res = HttpResponse::new(format!("{}\n\n", line)).expect("a response");
        assert_eq!(res.status_code(), 404, "{}", line);
    }
}

#[test]
fn a_status_code_may_have_a_plus_sign_and_zeros() {
    let res = HttpResponse::new("HTTP/1.1 +0200 OK\n\n".to_string()).expect("a response");
    assert_eq!(res.status_code(), 200);
    let res = HttpResponse::new("HTTP/1.1 4294967295 OK\n\n".to_string()).expect("a response");
    assert_eq!(res.status_code(), 4294967295);
    let res = HttpResponse::new("HTTP/1.1 0 OK\n\n".to_string()).expect("a response");
    assert_eq!(res.status_code(), 0);
}

#[test]
fn the_reason_is_one_word() {
    let res = HttpResponse::new("HTTP/1.1 404 Not Found\n\n".to_string()).expect("a response");
    assert_eq!(res.reason(), "Not");
    let res = HttpResponse::new("HTTP/1.1 404\n\n".to_string()).expect("a response");
    assert_eq!(res.reason(), "");
    assert_eq!(res.version(), "HTTP/1.1");
}

#[test]
fn without_an_empty_line_everything_is_body() {
    let res = HttpResponse::new("HTTP/1.1 200 OK\nDate: x\nbody".to_string()).expect("a response");
    assert_eq!(res.headers().len(), 0);
    assert_eq!(res.body(), "Date: x\nbody");
    let res = HttpResponse::new("HTTP/1.1 200 OK\n\n".to_string()).expect("a response");
    assert_eq!(res.body(), "\n");
}

#[test]
fn the_body_keeps_its_empty_lines() {
    let res = HttpResponse::new("\r\n HTTP/1.1 200 OK\nA: 1\n\nx\n\ny\r\nz\r".to_string())
        .expect("a response");
    assert_eq!(res.body(), "x\n\ny\nz\r");
    assert_eq!(res.headers().len(), 1);
}

#[test]
fn the_first_header_of_a_name_is_the_one_found() {
    let res = HttpResponse::new("HTTP/1.1 200 OK\nA :  1 \nB:2:3\nA: 4\n\n".to_string())
        .expect("a response");
    assert_eq!(res.header_value("A"), Ok("1".to_string()));
    assert_eq!(res.header_value("B"), Ok("2:3".to_string()));
    assert_eq!(res.header_value("C"), Err("failed to find C in headers".to_string()));
    assert_eq!(res.headers().len(), 3);
}

#[test]
fn the_request_names_path_and_host() {
    let client = HttpClient::new();
    assert_eq!(
        client.request("example.com", "index.html"),
        "GET /index.html HTTP/1.1\nHost: example.com\nAccept: text/html\nConnection: close\n\r\n"
    );
}

/// Strings over a few characters, in an order that is the same at every run.
fn samples(alphabet: &[char], count: usize, longest: usize) -> Vec<String> {
    let mut state: u64 = 0x2545F4914F6CDD1D;
    let mut next = move || {
        state ^= state << 13;
        state ^= state >> 7;
        state ^= state << 17;
        state
    };
    let mut all = Vec::new();
    for _ in 0..count {
        let len = (next() % (longest as u64 + 1)) as usize;
        let mut s = String::new();
        for _ in 0..len {
            s.push(alphabet[(next() % alphabet.len() as u64) as usize]);
        }
        all.push(s);
    }
    all
}

/// The response read with the string functions of the standard library.
fn with_std(raw: &str) -> Option<(String, u32, String, Vec<(String, String)>, String)> {
    let text = raw.trim_start().replace("\r\n", "\n");
    let (status_line, remaining) = text.split_once("\n")?;
    let (headers, body) = match remaining.split_once("\n\n") {
        Some((h, b)) => {
            let mut headers = Vec::new();
            for header in h.split("\n") {
                let parts: Vec<&str> = header.splitn(2, ":").collect();
                if parts.len() < 2 {
                    return None;
                }
                headers.push((parts[0].trim().to_string(), parts[1].trim().to_string()));
            }
            (headers, b)
        }
        None => (Vec::new(), remaining),
    };
    let statuses: Vec<&str> = status_line.split(" ").collect();
    Some((
        statuses.get(0).unwrap_or(&"").to_string(),
        statuses.get(1).copied().and_then(|x| x.parse().ok()).unwrap_or(404),
        statuses.get(2).unwrap_or(&"").to_string(),
        headers,
        body.to_string(),
    ))
}

#[test]
fn responses_are_read_as_the_standard_string_functions_read_them() {
    let alphabet = [' ', '\n', '\r', ':', 'a', '1', '+', '\t', '\n', ' '];
    let mut some = 0;
    for raw in samples(&alphabet, 60000, 14) {
        let expected = with_std(&raw);
        match HttpResponse::new(raw.clone()) {
            Ok(res) => {
                let headers: Vec<(String, String)> =
                    res.headers().iter().map(|h| (h.name(), h.value())).collect();
                let found = (res.version(), res.status_code(), res.reason(), headers, res.body());
                assert_eq!(Some(found), expected, "{:?}", raw);
                some += 1;
            }
            Err(_) => assert_eq!(None, expected, "{:?}", raw),
        }
    }
    assert!(some > 1000);
}

#[test]
fn status_codes_are_read_as_the_standard_library_reads_numbers() {
    let alphabet = ['0', '1', '9', '4', '+', '-', 'a', '2'];
    for code in samples(&alphabet, 20000, 11) {
        if code.contains(' ') {
            continue;
        }
        let res = HttpResponse::new(format!("v {} r\n\n", code)).expect("a response");
        assert_eq!(res.status_code(), code.parse::<u32>().unwrap_or(404), "{:?}", code);
    }
}
