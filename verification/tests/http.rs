use modemui::base64::base64_decode;
use modemui::http::{
    admits, check_auth, constant_time_eq, gate, response_head, status_text, ReadError, Received,
    Request, RequestReader, Response,
};
use modemui::table::Table;

fn req_with_auth(header: Option<&str>) -> Request {
    let mut headers = Table::new();
    if let Some(h) = header {
        headers.insert("authorization".to_string(), h.to_string());
    }
    Request {
        method: "GET".to_string(),
        path: "/".to_string(),
        headers,
        body: String::new(),
    }
}

#[test]
fn base64_roundtrip_known_vectors() {
    assert_eq!(base64_decode("YWJj").unwrap(), b"abc");
    assert_eq!(base64_decode("YQ==").unwrap(), b"a");
    assert_eq!(base64_decode("YWI=").unwrap(), b"ab");
    assert_eq!(base64_decode("dXNlcjpwYXNz").unwrap(), b"user:pass");
    assert_eq!(base64_decode("").unwrap(), b"");
}

#[test]
fn base64_rejects_garbage() {
    assert!(base64_decode("!!!!").is_none());
}

#[test]
fn auth_disabled_allows_everything() {
    assert!(check_auth(&req_with_auth(None), &None));
}

#[test]
fn auth_requires_correct_credentials() {
    let cfg = Some(("user".to_string(), "pass".to_string()));
    // dXNlcjpwYXNz == "user:pass"
    assert!(check_auth(&req_with_auth(Some("Basic dXNlcjpwYXNz")), &cfg));
    // dXNlcjp3cm9uZw== == "user:wrong"
    assert!(!check_auth(
        &req_with_auth(Some("Basic dXNlcjp3cm9uZw==")),
        &cfg
    ));
    assert!(!check_auth(&req_with_auth(None), &cfg));
    assert!(!check_auth(&req_with_auth(Some("Bearer x")), &cfg));
}

#[test]
fn constant_time_eq_behaves_like_eq() {
    assert!(constant_time_eq(b"abc", b"abc"));
    assert!(!constant_time_eq(b"abc", b"abd"));
    assert!(!constant_time_eq(b"abc", b"ab"));
    assert!(constant_time_eq(b"", b""));
}

#[test]
fn base64_skips_white_space_and_stops_at_padding() {
    assert_eq!(base64_decode("YW\n Jj").unwrap(), b"abc");
    assert_eq!(base64_decode("YQ==YWJj").unwrap(), b"a");
    assert_eq!(base64_decode("+/+/").unwrap(), vec![0xfb, 0xff, 0xbf]);
    // Bits that do not fill a byte are dropped.
    assert_eq!(base64_decode("Y").unwrap(), b"");
}

#[test]
fn gate_asks_for_credentials() {
    let cfg = Some(("user".to_string(), "pass".to_string()));
    assert!(gate(&req_with_auth(Some("basic  dXNlcjpwYXNz ")), &cfg).is_none());
    let r = gate(&req_with_auth(Some("Basic dXNlcg==")), &cfg).unwrap();
    assert_eq!(r.status, 401);
    assert_eq!(r.body, b"authentication required");
    assert_eq!(
        r.extra_headers,
        vec![(
            "WWW-Authenticate".to_string(),
            "Basic realm=\"modemui\"".to_string()
        )]
    );
    assert!(gate(&req_with_auth(None), &None).is_none());
}

#[test]
fn credentials_that_are_no_text_do_not_fit() {
    // "user:" and the byte 0xff.
    let bad = "Basic dXNlcjr/";
    let cfg = Some(("user".to_string(), "\u{ff}".to_string()));
    assert!(!check_auth(&req_with_auth(Some(bad)), &cfg));
    let cfg = Some(("user".to_string(), "\u{fffd}".to_string()));
    assert!(check_auth(&req_with_auth(Some(bad)), &cfg));
}

/// Feed bytes until the request is settled.
fn read(bytes: &[u8]) -> Received {
    let mut reader = RequestReader::new();
    for b in bytes {
        if reader.is_over() {
            return reader.finish();
        }
        reader = reader.feed(*b);
    }
    reader.finish()
}

fn got(bytes: &[u8]) -> Request {
    match read(bytes) {
        Received::Got(r) => r,
        other => panic!("no request: {:?}", other),
    }
}

fn failure(bytes: &[u8]) -> Option<ReadError> {
    match read(bytes) {
        Received::Failed(e) => Some(e),
        _ => None,
    }
}

#[test]
fn reads_a_request() {
    let r = got(
        b"POST /api/lock/pci?x=1 HTTP/1.1\r\nHost: router\r\nContent-Length: 14\r\nX:  a b \r\n\r\nearfcn=1&pci=2tail",
    );
    assert_eq!(r.method, "POST");
    assert_eq!(r.path, "/api/lock/pci");
    assert_eq!(r.headers.get("host"), Some("router"));
    assert_eq!(r.headers.get("x"), Some("a b"));
    assert_eq!(r.headers.get("content-length"), Some("14"));
    assert_eq!(r.headers.get("nope"), None);
    assert_eq!(r.body, "earfcn=1&pci=2");
}

#[test]
fn reads_odd_requests() {
    let r = got(b"GET\n\n");
    assert_eq!((r.method.as_str(), r.path.as_str()), ("GET", "/"));
    let r = got(b"GET /a?b?c");
    assert_eq!(r.path, "/a");
    let r = got(b"GET / HTTP/1.1\r\nno colon\r\nContent-Length: many\r\n\r\nbody");
    assert_eq!(r.body, "");
    // The last of two headers with one name counts.
    let r = got(b"GET / HTTP/1.1\r\nA: 1\r\na: 2\r\n\r\n");
    assert_eq!(r.headers.get("a"), Some("2"));
    // A body that is no text is mended.
    let r = got(b"POST / HTTP/1.1\r\nContent-Length: 2\r\n\r\na\xff");
    assert_eq!(r.body, "a\u{fffd}");
    assert!(matches!(read(b""), Received::Nothing));
    assert!(matches!(read(b" \r\n"), Received::Nothing));
}

#[test]
fn refuses_bad_requests() {
    let mut long = b"GET /".to_vec();
    long.extend(vec![b'a'; 9000]);
    assert_eq!(failure(&long), Some(ReadError::LineTooLong));
    let mut edge = vec![b'a'; 8192];
    edge.extend(b"\n\n");
    assert_eq!(got(&edge).method.len(), 8192);
    let mut over = vec![b'a'; 8193];
    over.extend(b"\n\n");
    assert_eq!(failure(&over), Some(ReadError::LineTooLong));
    assert_eq!(
        failure(b"POST / HTTP/1.1\r\nContent-Length: 65537\r\n\r\n"),
        Some(ReadError::BodyTooLarge)
    );
    assert_eq!(
        failure(b"POST / HTTP/1.1\r\nContent-Length: 5\r\n\r\nabc"),
        Some(ReadError::Truncated)
    );
}

#[test]
fn largest_body_is_read() {
    let mut b = b"POST / HTTP/1.1\r\nContent-Length: 65536\r\n\r\n".to_vec();
    b.extend(vec![b'x'; 65536]);
    assert_eq!(got(&b).body.len(), 65536);
}

#[test]
fn head_of_a_response() {
    let r = Response::text(503, "too many connections");
    assert_eq!(
        response_head(&r),
        "HTTP/1.1 503 Service Unavailable\r\nContent-Type: text/plain; charset=utf-8\r\nContent-Length: 20\r\nConnection: close\r\nX-Content-Type-Options: nosniff\r\nCache-Control: no-store\r\n\r\n"
    );
    let r = Response::unauthorized();
    assert_eq!(
        response_head(&r),
        "HTTP/1.1 401 Unauthorized\r\nContent-Type: text/plain; charset=utf-8\r\nContent-Length: 23\r\nConnection: close\r\nX-Content-Type-Options: nosniff\r\nCache-Control: no-store\r\nWWW-Authenticate: Basic realm=\"modemui\"\r\n\r\n"
    );
}

#[test]
fn kinds_of_responses() {
    let r = Response::html("é");
    assert_eq!((r.status, r.content_type.as_str()), (200, "text/html; charset=utf-8"));
    assert_eq!(r.body, vec![0xc3, 0xa9]);
    let r = Response::asset("text/css", "x");
    assert_eq!((r.status, r.content_type.as_str()), (200, "text/css"));
    let r = Response::json(404, "{}".to_string());
    assert_eq!(
        (r.status, r.content_type.as_str()),
        (404, "application/json; charset=utf-8")
    );
    assert!(r.extra_headers.is_empty());
}

#[test]
fn reasons() {
    assert_eq!(status_text(200), "OK");
    assert_eq!(status_text(400), "Bad Request");
    assert_eq!(status_text(401), "Unauthorized");
    assert_eq!(status_text(404), "Not Found");
    assert_eq!(status_text(405), "Method Not Allowed");
    assert_eq!(status_text(413), "Payload Too Large");
    assert_eq!(status_text(500), "Internal Server Error");
    assert_eq!(status_text(503), "Service Unavailable");
    assert_eq!(status_text(418), "Unknown");
}

#[test]
fn connections_are_limited() {
    assert!(admits(0));
    assert!(admits(15));
    assert!(!admits(16));
}

#[test]
fn clients_with_credentials_are_let_in() {
    let set = Some(("user".to_string(), "pass".to_string()));
    let r = got(b"GET /?a HTTP/1.1\r\nAuthorization: Basic dXNlcjpwYXNz\r\n\r\n");
    assert!(gate(&r, &set).is_none());
    assert_eq!(r.path, "/");
    let r = got(b"GET / HTTP/1.1\r\nAuthorization: Basic dXNlcjpwYXNzMQ==\r\n\r\n");
    assert!(gate(&r, &set).is_some());
    // A password may hold a colon: "user:pa:ss".
    let set = Some(("user".to_string(), "pa:ss".to_string()));
    let r = got(b"GET / HTTP/1.1\r\nAuthorization: Basic dXNlcjpwYTpzcw==\r\n\r\n");
    assert!(gate(&r, &set).is_none());
}
