use zipring::http::{Header, HttpParse};
use zipring::request::{
    extract_headers, parse_next_request, request_from_parse, AcceptedEncodings, Headers, Request,
};
use zipring::status::HttpStatus;

/// A buffer of a size with data at its front, and how much of it was read.
fn read(data: &[u8], size: usize) -> (Option<usize>, Vec<u8>) {
    let mut buf = vec![0u8; size];
    let n = data.len().min(size);
    buf[..n].copy_from_slice(&data[..n]);
    (Some(n), buf)
}

fn parse(data: &[u8], size: usize) -> Request {
    let (n, buf) = read(data, size);
    parse_next_request(n, buf).unwrap()
}

#[test]
fn test_parse_simple_get() {
    let result = parse(b"GET / HTTP/1.1\r\nHost: localhost\r\n\r\n", 1024);
    assert!(matches!(
        result,
        Request::Get {
            path,
            headers: Headers {
                if_none_match: None,
                accepted_encodings: AcceptedEncodings {
                    gzip: false,
                    zstd: false
                },
                close: false
            },
        } if path.as_slice() == b"/"
    ));
}

#[test]
fn test_parse_get_with_etag() {
    let result = parse(b"GET /style.css HTTP/1.1\r\nIf-None-Match: \"deadbeef\"\r\n\r\n", 1024);
    assert!(matches!(
        result,
        Request::Get {
            headers: Headers {
                if_none_match: Some(0xdeadbeef),
                ..
            },
            ..
        }
    ));
}

#[test]
fn test_parse_get_with_invalid_etag() {
    // Value is 10 bytes but hex part is not valid hex
    let result = parse(b"GET / HTTP/1.1\r\nIf-None-Match: \"zzzzzzzz\"\r\n\r\n", 1024);
    assert!(matches!(
        result,
        Request::Get {
            headers: Headers {
                if_none_match: None,
                ..
            },
            ..
        }
    ));
}

#[test]
fn test_parse_get_with_accept_encoding() {
    let result = parse(b"GET / HTTP/1.1\r\nAccept-Encoding: gzip, zstd\r\n\r\n", 1024);
    assert!(matches!(
        result,
        Request::Get {
            headers: Headers {
                accepted_encodings: AcceptedEncodings {
                    gzip: true,
                    zstd: true,
                },
                ..
            },
            ..
        }
    ));
}

#[test]
fn test_parse_get_with_connection_close() {
    let result = parse(b"GET / HTTP/1.1\r\nConnection: close\r\n\r\n", 1024);
    assert!(matches!(
        result,
        Request::Get {
            headers: Headers { close: true, .. },
            ..
        }
    ));
}

#[test]
fn test_parse_post_not_allowed() {
    let result = parse(b"POST / HTTP/1.1\r\nContent-Length: 0\r\n\r\n", 1024);
    assert!(matches!(
        result,
        Request::Bad {
            status: HttpStatus::MethodNotAllowed,
            ..
        }
    ));
}

#[test]
fn test_parse_read_error() {
    let result = parse_next_request(None, vec![0u8; 1024]);
    assert!(result.is_err(), "read errors should return Err(buf)");
}

#[test]
fn test_parse_empty_read() {
    let (n, buf) = read(b"", 1024);
    let result = parse_next_request(n, buf);
    assert!(result.is_err(), "empty read should return Err(buf)");
}

#[test]
fn test_parse_partial_returns_bad_request() {
    // A complete request line with an incomplete first header
    let result = parse(b"GET / HTTP/1.1\r\nX-", 1024);
    assert!(matches!(
        result,
        Request::Bad {
            status: HttpStatus::BadRequest,
            ..
        }
    ));
}

#[test]
fn test_parse_partial_with_path_returns_bad_request() {
    // A complete request line with no headers and no second \r\n
    let result = parse(b"GET / HTTP/1.1\r\n", 1024);
    assert!(matches!(
        result,
        Request::Bad {
            status: HttpStatus::BadRequest,
            ..
        }
    ));
}

#[test]
fn test_decode_path() {
    let path = format!("/a+file%20path/..%2F");
    let request_line = format!("GET {} HTTP/1.1\r\n\r\n", path);
    let result = parse(request_line.as_bytes(), 63);
    assert!(matches!(
        result,
        Request::Get {
            path,
            headers: _,
        } if matches!(std::str::from_utf8(path.as_slice()), Ok("/a+file path/../"))
    ));
}

#[test]
fn test_parse_path_too_long_for_buffer() {
    // The decoded path is written into the tail of the buffer after the
    // raw path. If decoding consumes every remaining byte the request is
    // rejected as UriTooLong.  A 30-byte non-encoded path in a 64-byte
    // buffer leaves exactly 30 bytes of tail space — enough to trigger.
    let path = format!("/{}", "a".repeat(29)); // 30 bytes
    let request_line = format!("GET {} HTTP/1.1\r\n\r\n", path);
    let result = parse(request_line.as_bytes(), 64);
    assert!(matches!(
        result,
        Request::Bad {
            status: HttpStatus::UriTooLong,
            ..
        }
    ));
}

#[test]
fn test_parse_too_many_headers() {
    // 65 header lines exceeds the 64-header capacity
    let mut raw = b"GET / HTTP/1.1\r\n".to_vec();
    for i in 0..65 {
        raw.extend_from_slice(format!("X-Dummy: {}\r\n", i).as_bytes());
    }
    raw.extend_from_slice(b"\r\n");
    let result = parse(&raw, 2048);
    assert!(matches!(
        result,
        Request::Bad {
            status: HttpStatus::HeaderTooLong,
            ..
        }
    ));
}

#[test]
fn test_path_that_just_fits() {
    // One byte more of tail space than the decoded path takes.
    let path = format!("/{}", "a".repeat(29));
    let request_line = format!("GET {} HTTP/1.1\r\n\r\n", path);
    match parse(request_line.as_bytes(), 65) {
        Request::Get { path: decoded, .. } => {
            assert_eq!(decoded.as_slice(), path.as_bytes());
            assert_eq!(decoded.start, 34);
            assert_eq!(decoded.end, 64);
            assert_eq!(decoded.into_inner().len(), 65);
        }
        Request::Bad { .. } => panic!("the path should fit"),
    }
}

#[test]
fn test_line_breaks_before_the_method() {
    match parse(b"\r\n\n\r\nGET /x%41 HTTP/1.1\r\n\r\n", 1024) {
        Request::Get { path, .. } => assert_eq!(path.as_slice(), b"/xA"),
        Request::Bad { .. } => panic!("the request should be read"),
    }
}

#[test]
fn test_half_escapes_stay() {
    match parse(b"GET /a%2/%zz%2 HTTP/1.1\r\n\r\n", 1024) {
        Request::Get { path, .. } => assert_eq!(path.as_slice(), b"/a%2/%zz%2"),
        Request::Bad { .. } => panic!("the request should be read"),
    }
}

#[test]
fn test_unfinished_path_is_too_long() {
    assert!(matches!(
        parse(b"GET /unfinished", 1024),
        Request::Bad { status: HttpStatus::UriTooLong, .. }
    ));
}

#[test]
fn test_no_request_is_bad() {
    assert!(matches!(
        parse(b"\0\0\0 nonsense\r\n\r\n", 1024),
        Request::Bad { status: HttpStatus::BadRequest, .. }
    ));
}

#[test]
fn test_as_many_headers_as_there_is_room_for() {
    let mut raw = b"GET / HTTP/1.1\r\n".to_vec();
    for i in 0..64 {
        raw.extend_from_slice(format!("X-Dummy: {}\r\n", i).as_bytes());
    }
    raw.extend_from_slice(b"\r\n");
    assert!(matches!(parse(&raw, 2048), Request::Get { .. }));
}

#[test]
fn test_header_names_in_any_case() {
    match parse(
        b"GET / HTTP/1.1\r\niF-nOnE-mAtCh: W0a1B2c3DW\r\nACCEPT-ENCODING: x-gzipped\r\nconnection: CLOSE\r\n\r\n",
        1024,
    ) {
        Request::Get { headers, .. } => {
            // The bytes around the digits are not looked at.
            assert_eq!(headers.if_none_match, Some(0x0a1b2c3d));
            assert!(headers.accepted_encodings.gzip);
            assert!(!headers.accepted_encodings.zstd);
            assert!(headers.close);
        }
        Request::Bad { .. } => panic!("the request should be read"),
    }
}

#[test]
fn test_prefixed_tag_is_no_tag() {
    match parse(b"GET / HTTP/1.1\r\nIf-None-Match: \"0xdeadbe\"\r\n\r\n", 1024) {
        Request::Get { headers, .. } => assert_eq!(headers.if_none_match, None),
        Request::Bad { .. } => panic!("the request should be read"),
    }
}

fn header(name: &str, value: &[u8]) -> Header {
    Header { name: name.to_string(), value: value.to_vec() }
}

#[test]
fn test_last_header_counts() {
    let headers = extract_headers(&[
        header("Accept-Encoding", b"gzip"),
        header("If-None-Match", b"\"00000001\""),
        header("Accept-Encoding", b"zstd"),
        header("If-None-Match", b"\"0000000g\""),
        header("If-None-Match", b"short"),
        header("Connection", b"keep-alive"),
    ]);
    assert_eq!(
        headers,
        Headers {
            if_none_match: Some(1),
            accepted_encodings: AcceptedEncodings { gzip: false, zstd: true },
            close: false,
        }
    );
    assert_eq!(extract_headers(&[]), Headers::default());
}

#[test]
fn test_encodings_in_invalid_utf8_do_not_count() {
    let encodings = AcceptedEncodings::from_header(&header("Accept-Encoding", b"gzip, zstd\xff"));
    assert_eq!(encodings, AcceptedEncodings::default());
    let encodings = AcceptedEncodings::from_header(&header("Accept-Encoding", b"gzip, zst"));
    assert_eq!(encodings, AcceptedEncodings { gzip: true, zstd: false });
}

#[test]
fn test_keep_alive() {
    assert!(parse(b"GET / HTTP/1.1\r\n\r\n", 64).keep_alive());
    assert!(!parse(b"GET / HTTP/1.1\r\nConnection: close\r\n\r\n", 128).keep_alive());
    assert!(!parse(b"PUT / HTTP/1.1\r\n\r\n", 64).keep_alive());
}

#[test]
fn test_requests_from_parses() {
    let buf = || vec![7u8; 40];
    let status = |parsed: HttpParse| match request_from_parse(parsed, buf(), 20) {
        Request::Bad { status, buf } => {
            assert_eq!(buf, vec![7u8; 40]);
            status
        }
        Request::Get { .. } => panic!("the request should be bad"),
    };
    assert_eq!(status(HttpParse::TooManyHeaders), HttpStatus::HeaderTooLong);
    assert_eq!(status(HttpParse::Invalid), HttpStatus::BadRequest);
    assert_eq!(status(HttpParse::Partial { path: None }), HttpStatus::UriTooLong);
    assert_eq!(
        status(HttpParse::Partial { path: Some("/".to_string()) }),
        HttpStatus::BadRequest
    );
    assert_eq!(
        status(HttpParse::Complete {
            method: Some("GET".to_string()),
            path: None,
            headers: vec![]
        }),
        HttpStatus::BadRequest
    );
    assert_eq!(
        status(HttpParse::Complete { method: None, path: Some("/".to_string()), headers: vec![] }),
        HttpStatus::MethodNotAllowed
    );
}

#[test]
fn test_too_long_path_fills_the_buffer() {
    let mut buf = b"GET /abcdef HTTP/1.1\r\n\r\n".to_vec();
    buf.truncate(16);
    match zipring::request::decode_path(buf, (4, 11)) {
        Err(rest) => assert_eq!(rest, b"GET /abcdef/abcd"),
        Ok(_) => panic!("the path should not fit"),
    }
}
