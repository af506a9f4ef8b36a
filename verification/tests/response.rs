use std::io::Write;

use zipring::entry::{Entry, Method};
use zipring::fstree::FsTreeNode;
use zipring::listing::CHUNK_SIZE_LEN;
use zipring::request::{AcceptedEncodings, BufSlice, Headers, Request};
use zipring::response::{can_respond, respond};
use zipring::status::HttpStatus;
use zipring::stream::{encode_crc32, ContentCompression, ResponseStream, Transfer};

const PREAMBLE: &str = "<!doctype html>\n<title>Index</title>\n<ul>\n";

#[test]
fn test_serve_not_found() {
    let mut stream = ResponseStream::new(make_buf(1024));
    stream.serve_status(HttpStatus::NotFound);
    let out = String::from_utf8_lossy(&stream.out);
    assert_eq!(
        out.split("\r\n").collect::<Vec<_>>(),
        vec!["HTTP/1.1 404 Not Found", "Content-Length: 0", "", ""]
    );
}

#[test]
fn test_serve_bad_request() {
    let mut stream = ResponseStream::new(make_buf(1024));
    stream.serve_status(HttpStatus::BadRequest);
    let out = String::from_utf8_lossy(&stream.out);
    assert_eq!(
        out.split("\r\n").collect::<Vec<_>>(),
        vec!["HTTP/1.1 400 Bad Request", "Content-Length: 0", "", ""]
    );
}

#[test]
fn test_serve_not_modified() {
    let mut stream = ResponseStream::new(make_buf(1024));
    stream.serve_not_modified(0xDEADBEEF);
    let out = String::from_utf8_lossy(&stream.out);
    assert_eq!(
        out.split("\r\n").collect::<Vec<_>>(),
        vec!["HTTP/1.1 304 Not Modified", "ETag: \"efbeadde\"", "", ""]
    );
}

#[test]
fn test_send_header_with_none_compression() {
    let entry = dummy_entry("style.css", 0xDEADBEEF, Method::Store, 4096, 4096);
    let mut stream = ResponseStream::new(make_buf(2048));
    stream.send_entry_header(&entry, None).unwrap();
    let out = String::from_utf8(stream.out).unwrap();
    assert_eq!(
        out.split("\r\n").collect::<Vec<_>>(),
        vec![
            "HTTP/1.1 200 OK",
            "Content-Type: text/css",
            "Content-Length: 4096",
            "ETag: \"efbeadde\"",
            "Cache-control: max-age=180, public",
            "",
            "",
        ]
    )
}

#[test]
fn test_send_header_with_gzip_compression() {
    let entry = dummy_entry("style.css", 0xDEADBEEF, Method::Deflate, 1024, 4096);
    let mut stream = ResponseStream::new(make_buf(2048));
    stream
        .send_entry_header(
            &entry,
            Some(&ContentCompression {
                extra_len: 18,
                encoding: "gzip",
            }),
        )
        .unwrap();
    let out = String::from_utf8(stream.out).unwrap();
    assert_eq!(
        out.split("\r\n").collect::<Vec<_>>(),
        vec![
            "HTTP/1.1 200 OK",
            "Content-Type: text/css",
            "Content-Encoding: gzip",
            "Content-Length: 1042", // = 1024 + 18
            "ETag: \"efbeadde\"",
            "Cache-control: max-age=180, public",
            "",
            "",
        ]
    )
}

#[test]
fn test_send_header_with_zstd_compression() {
    let entry = dummy_entry("style.css", 0xDEADBEEF, Method::Deflate, 1024, 4096);
    let mut stream = ResponseStream::new(make_buf(2048));
    stream
        .send_entry_header(
            &entry,
            Some(&ContentCompression {
                extra_len: 0,
                encoding: "zstd",
            }),
        )
        .unwrap();
    let out = String::from_utf8(stream.out).unwrap();
    assert_eq!(
        out.split("\r\n").collect::<Vec<_>>(),
        vec![
            "HTTP/1.1 200 OK",
            "Content-Type: text/css",
            "Content-Encoding: zstd",
            "Content-Length: 1024",
            "ETag: \"efbeadde\"",
            "Cache-control: max-age=180, public",
            "",
            "",
        ]
    )
}

#[test]
fn test_serve_index_root() {
    let entries = vec![node_dir("images"), node_file("index.html")];
    let mut stream = ResponseStream::new(make_buf(4096));
    stream.serve_index(PREAMBLE, true, &entries).unwrap();
    let out = String::from_utf8_lossy(&stream.out);
    assert!(
        out.starts_with("HTTP/1.1 200 OK\r\nContent-Type: text/html;")
            && out.contains("Transfer-Encoding: chunked")
    );
    assert!(out.contains("<li class=dir><a href=\"./images/\">images</a>"));
    assert!(out.contains("<li><a href=\"./index.html\">index.html</a>"));
    assert!(!out.contains(".."), "root dir should not have parent link");

    assert!(out.ends_with("0\r\n\r\n"), "should end with final chunk");
}

/// Create a minimal `Entry` for testing response formatting.
fn dummy_entry(
    name: &str,
    crc32: u32,
    method: Method,
    compressed_size: u64,
    uncompressed_size: u64,
) -> Entry {
    Entry {
        name: name.to_owned(),
        method,
        header_offset: 0,
        crc32,
        compressed_size,
        uncompressed_size,
    }
}

/// Create a test buffer of the given size.
fn make_buf(size: usize) -> Vec<u8> {
    vec![0u8; size]
}

fn node_dir(name: &str) -> FsTreeNode {
    FsTreeNode::Dir {
        name: name.to_string(),
        children: vec![],
        entry: None,
        is_root: false,
        index_html_index: None,
    }
}

fn node_file(name: &str) -> FsTreeNode {
    FsTreeNode::File {
        name: name.to_string(),
        entry: dummy_entry(name, 0xfefe, Method::Zstd, 10, 100),
    }
}

/// The chunks of a body, and the page they make up.
fn dechunk(body: &[u8]) -> (Vec<usize>, String) {
    let mut sizes = Vec::new();
    let mut page = Vec::new();
    let mut rest = body;
    loop {
        let line_end = rest.windows(2).position(|w| w == b"\r\n").unwrap();
        let digits = std::str::from_utf8(&rest[..line_end]).unwrap();
        let size = usize::from_str_radix(digits, 16).unwrap();
        rest = &rest[line_end + 2..];
        page.extend_from_slice(&rest[..size]);
        assert_eq!(&rest[size..size + 2], b"\r\n");
        rest = &rest[size + 2..];
        if size == 0 {
            assert!(rest.is_empty());
            return (sizes, String::from_utf8(page).unwrap());
        }
        sizes.push(size);
    }
}

fn body(out: &[u8]) -> &[u8] {
    let end = out.windows(4).position(|w| w == b"\r\n\r\n").unwrap();
    &out[end + 4..]
}

#[test]
fn test_chunks_make_up_the_page() {
    let mut entries = Vec::new();
    let mut expected = format!("{PREAMBLE}<li class=top><a href=\"..\">..</a>\n");
    for i in 0..40 {
        entries.push(node_file(&format!("file {i}")));
        entries.push(node_dir(&format!("dir<{i}>")));
    }
    for i in 0..40 {
        expected += &format!("<li class=dir><a href=\"./dir%3C{i}%3E/\">dir&lt;{i}&gt;</a>\n");
    }
    for i in 0..40 {
        expected += &format!("<li><a href=\"./file%20{i}\">file {i}</a>\n");
    }
    let mut stream = ResponseStream::new(make_buf(200));
    stream.serve_index(PREAMBLE, false, &entries).unwrap();
    let (sizes, page) = dechunk(body(&stream.out));
    assert_eq!(page, expected);
    assert!(sizes.len() > 10);
    assert!(sizes.iter().all(|s| *s <= 200 - CHUNK_SIZE_LEN - 2));
    assert_eq!(stream.into_buf().len(), 200);
}

#[test]
fn test_length_line_of_a_chunk() {
    let mut stream = ResponseStream::new(make_buf(512));
    stream.serve_index("x", true, &[]).unwrap();
    let digits = format!("{:0width$x}", 1, width = CHUNK_SIZE_LEN - 2);
    assert_eq!(
        String::from_utf8_lossy(body(&stream.out)),
        format!("{digits}\r\nx\r\n0\r\n\r\n")
    );
}

#[test]
fn test_line_longer_than_the_buffer() {
    let entries = vec![node_file("short"), node_file(&"l".repeat(200))];
    let mut stream = ResponseStream::new(make_buf(150));
    assert!(stream.serve_index("p", true, &entries).is_err());
    // What fit was sent in a chunk of its own, and the body has no end.
    let out = String::from_utf8_lossy(&stream.out);
    assert!(out.contains("<li><a href=\"./short\">short</a>\n"));
    assert!(!out.ends_with("0\r\n\r\n"));
}

#[test]
fn test_preamble_longer_than_the_buffer() {
    let mut stream = ResponseStream::new(make_buf(30));
    assert!(stream.serve_index("0123456789abcdef", true, &[]).is_err());
    assert!(stream.out.ends_with(b"Transfer-Encoding: chunked\r\n\r\n"));
}

#[test]
fn test_names_are_escaped() {
    let entries = vec![node_file("a\"b'c&d/e`\u{e9}%41")];
    let mut stream = ResponseStream::new(make_buf(1024));
    stream.serve_index("p", true, &entries).unwrap();
    let out = String::from_utf8_lossy(&stream.out);
    assert!(out.contains(
        "<li><a href=\"./a%22b'c&d/e%60%C3%A9%41\">a&quot;b&#x27;c&amp;d&#x2f;e`\u{e9}%41</a>\n"
    ));
}

#[test]
fn test_header_longer_than_the_buffer() {
    let entry = dummy_entry("style.css", 1, Method::Store, 1, 1);
    let mut stream = ResponseStream::new(make_buf(60));
    assert!(stream.send_entry_header(&entry, None).is_err());
    assert!(stream.out.is_empty());
}

#[test]
fn test_header_as_long_as_the_buffer() {
    let entry = dummy_entry("noextension", 0x01020304, Method::Store, 1, 18446744073709551615);
    let mut stream = ResponseStream::new(make_buf(2048));
    stream.send_entry_header(&entry, None).unwrap();
    let head = stream.out;
    assert_eq!(
        String::from_utf8(head.clone()).unwrap(),
        "HTTP/1.1 200 OK\r\nContent-Type: text/plain\r\nContent-Length: 18446744073709551615\r\nETag: \"04030201\"\r\nCache-control: max-age=180, public\r\n\r\n"
    );
    let mut stream = ResponseStream::new(make_buf(head.len()));
    assert!(stream.send_entry_header(&entry, None).is_ok());
    let mut stream = ResponseStream::new(make_buf(head.len() - 1));
    assert!(stream.send_entry_header(&entry, None).is_err());
}

#[test]
fn test_statuses() {
    let line = |status: HttpStatus| {
        let mut stream = ResponseStream::new(make_buf(0));
        stream.serve_status(status);
        String::from_utf8(stream.out).unwrap()
    };
    let tail = "\r\nContent-Length: 0\r\n\r\n";
    assert_eq!(line(HttpStatus::UriTooLong), format!("HTTP/1.1 414 URI Too Long{tail}"));
    assert_eq!(
        line(HttpStatus::HeaderTooLong),
        format!("HTTP/1.1 431 Request Header Fields Too Large{tail}")
    );
    assert_eq!(
        line(HttpStatus::MethodNotAllowed),
        format!("HTTP/1.1 405 Method Not Allowed{tail}")
    );
}

#[test]
fn test_entity_tags() {
    assert_eq!(&encode_crc32(0xDEADBEEF), b"efbeadde");
    assert_eq!(&encode_crc32(0), b"00000000");
    assert_eq!(&encode_crc32(1), b"01000000");
}

fn get(path: &[u8], headers: Headers) -> Request {
    let mut buf = vec![0u8; 1024];
    buf[100..100 + path.len()].copy_from_slice(path);
    Request::Get { path: BufSlice { buf, start: 100, end: 100 + path.len() }, headers }
}

fn sample_tree() -> FsTreeNode {
    let mut tree = FsTreeNode::root();
    tree.insert(dummy_entry("a.txt", 0x11223344, Method::Deflate, 10, 20));
    tree.insert(dummy_entry("d/", 0x55667788, Method::Store, 0, 0));
    tree.insert(dummy_entry("d/b.bin", 1, Method::Ppmd, 1, 1));
    tree.insert(dummy_entry("e/index.html", 2, Method::Store, 3, 3));
    tree.insert(dummy_entry("e/z", 3, Method::Zstd, 4, 5));
    tree.recursive_sort();
    tree
}

fn answer(path: &[u8], headers: Headers) -> (String, Result<Transfer, zipring::stream::BufferFull>) {
    let tree = sample_tree();
    let request = get(path, headers);
    assert!(can_respond(&request, &tree));
    let response = respond(request, &tree, PREAMBLE);
    assert_eq!(response.stream.buf.len(), 1024);
    (String::from_utf8_lossy(&response.stream.out).to_string(), response.left)
}

#[test]
fn test_tag_of_an_entry_sent_back() {
    // The tag is sent as "44332211", and read back as a number.
    let headers = Headers { if_none_match: Some(0x44332211), ..Headers::default() };
    let (out, left) = answer(b"/a.txt", headers);
    assert_eq!(out, "HTTP/1.1 304 Not Modified\r\nETag: \"44332211\"\r\n\r\n");
    assert!(matches!(left, Ok(Transfer::Finished)));
    // Another tag is another file.
    let headers = Headers { if_none_match: Some(0x11223344), ..Headers::default() };
    assert!(answer(b"/a.txt", headers).0.starts_with("HTTP/1.1 200 OK\r\n"));
    // A directory with an entry has a tag too.
    let headers = Headers { if_none_match: Some(0x88776655), ..Headers::default() };
    assert!(answer(b"/d", headers).0.starts_with("HTTP/1.1 304 Not Modified\r\n"));
}

#[test]
fn test_paths_that_lead_nowhere() {
    for path in [&b"/nothing"[..], b"/a.txt/b", b"/d/\xff", b"/\xc3"] {
        let (out, left) = answer(path, Headers::default());
        assert_eq!(out, "HTTP/1.1 404 Not Found\r\nContent-Length: 0\r\n\r\n");
        assert!(matches!(left, Ok(Transfer::Finished)));
    }
}

#[test]
fn test_choice_of_transfer() {
    let gzip = Headers {
        accepted_encodings: AcceptedEncodings { gzip: true, zstd: false },
        ..Headers::default()
    };
    let zstd = Headers {
        accepted_encodings: AcceptedEncodings { gzip: false, zstd: true },
        ..Headers::default()
    };
    let (out, left) = answer(b"/a.txt", gzip);
    assert!(out.contains("Content-Encoding: gzip\r\nContent-Length: 28\r\n"));
    assert!(matches!(left, Ok(Transfer::Compressed(_))));
    let (out, left) = answer(b"/a.txt", zstd);
    assert!(!out.contains("Content-Encoding") && out.contains("Content-Length: 20\r\n"));
    assert!(matches!(left, Ok(Transfer::Decompressed(_))));
    let (out, left) = answer(b"/e/z", zstd);
    assert!(out.contains("Content-Encoding: zstd\r\nContent-Length: 4\r\n"));
    assert!(matches!(left, Ok(Transfer::Compressed(_))));
    let (out, left) = answer(b"/d/b.bin", gzip);
    assert_eq!(out, "HTTP/1.1 500 Unsupported Compression\r\nContent-Length: 0\r\n\r\n");
    assert!(matches!(left, Ok(Transfer::Finished)));
}

#[test]
fn test_directory_with_an_index() {
    let (out, left) = answer(b"/e/", Headers::default());
    assert!(out.contains("Content-Type: text/html\r\nContent-Length: 3\r\n"));
    assert!(matches!(left, Ok(Transfer::Decompressed(_))));
    let (out, left) = answer(b"/", Headers::default());
    assert!(out.contains("<li class=dir><a href=\"./d/\">d</a>\n<li class=dir><a href=\"./e/\">e</a>\n<li><a href=\"./a.txt\">a.txt</a>\n"));
    assert!(!out.contains("class=top"));
    assert!(matches!(left, Ok(Transfer::Finished)));
    let (out, _) = answer(b"/d", Headers::default());
    assert!(out.contains("<li class=top><a href=\"..\">..</a>\n"));
}

#[test]
fn test_bad_request_is_answered_with_its_status() {
    let tree = sample_tree();
    let request = Request::Bad { status: HttpStatus::UriTooLong, buf: vec![1, 2, 3] };
    assert!(can_respond(&request, &tree));
    let response = respond(request, &tree, PREAMBLE);
    assert_eq!(response.stream.out, b"HTTP/1.1 414 URI Too Long\r\nContent-Length: 0\r\n\r\n");
    assert_eq!(response.stream.buf, vec![1, 2, 3]);
}

#[test]
fn test_what_cannot_be_answered() {
    let tree = sample_tree();
    let headers = Headers { if_none_match: Some(0x44332211), ..Headers::default() };
    let request = |buf: Vec<u8>, end: usize| Request::Get {
        path: BufSlice { buf, start: 0, end },
        headers,
    };
    assert!(!can_respond(&request(b"a.txt".to_vec(), 5), &tree));
    assert!(!can_respond(&request(b"d".to_vec(), 1), &tree));
    assert!(!can_respond(&request("\u{e9}/x".as_bytes().to_vec(), 4), &tree));
    assert!(can_respond(&request(b"nothing".to_vec(), 7), &tree));
}

#[test]
fn test_what_is_left_in_the_buffer() {
    let tree = sample_tree();
    let buffers = |path: &[u8], headers: Headers| {
        let request = get(path, headers);
        let before = match &request {
            Request::Get { path, .. } => path.buf.clone(),
            _ => unreachable!(),
        };
        let response = respond(request, &tree, PREAMBLE);
        (before, response.stream.buf, response.stream.out)
    };
    // Nothing is left of an answer without contents.
    for path in [&b"/nothing"[..], b"/d/b.bin"] {
        let (before, after, _) = buffers(path, Headers::default());
        assert_eq!(before, after);
    }
    // The head of any other stands at the front.
    let same = Headers { if_none_match: Some(0x44332211), ..Headers::default() };
    for headers in [Headers::default(), same] {
        let (before, after, out) = buffers(b"/a.txt", headers);
        assert_eq!(&after[..out.len()], &out[..]);
        assert_eq!(&after[out.len()..], &before[out.len()..]);
    }
    // Of a listing it is the last chunk with data.
    let (_, after, out) = buffers(b"/", Headers::default());
    let chunks = body(&out);
    let chunk = &chunks[..chunks.len() - "0\r\n\r\n".len()];
    assert!(after.starts_with(chunk));
}

#[test]
fn test_lines_are_not_split_over_chunks() {
    let mut children = Vec::new();
    for i in 0..40 {
        children.push(node_file(&format!("file number {i}")));
        children.push(node_dir(&format!("directory {i}")));
    }
    for size in [200, 250, 333, 1000] {
        let mut stream = ResponseStream::new(make_buf(size));
        stream.serve_index("<ul>\n", false, &children).unwrap();
        let (sizes, page) = dechunk(body(&stream.out));
        assert_eq!(page.matches("<li").count(), 81);
        let mut at = 0;
        for n in sizes {
            at += n;
            assert!(page[..at].ends_with('\n'));
        }
    }
}

/// What lines leave in a buffer that they are written to through a cursor, chunk by chunk.
fn buffer_of_lines(mut buf: Vec<u8>, top: &str, lines: &[String]) -> Vec<u8> {
    let end = buf.len() - 2;
    let close = |buf: &mut Vec<u8>, len: usize| {
        buf[CHUNK_SIZE_LEN + len..][..2].copy_from_slice(b"\r\n");
        let size = format!("{len:0width$x}\r\n", width = CHUNK_SIZE_LEN - 2);
        buf[..CHUNK_SIZE_LEN].copy_from_slice(size.as_bytes());
    };
    buf[CHUNK_SIZE_LEN..][..top.len()].copy_from_slice(top.as_bytes());
    let mut len = top.len();
    for line in lines {
        loop {
            let mut cursor = std::io::Cursor::new(&mut buf[CHUNK_SIZE_LEN..end]);
            cursor.set_position(len as u64);
            if cursor.write_all(line.as_bytes()).is_ok() {
                len += line.len();
                break;
            }
            assert!(len > 0);
            close(&mut buf, len);
            len = 0;
        }
    }
    close(&mut buf, len);
    buf
}

#[test]
fn test_buffer_of_a_listing() {
    let mut children = Vec::new();
    let mut lines = Vec::new();
    for i in 0..20 {
        children.push(node_file(&format!("{}{i}", "name".repeat(i % 7))));
    }
    for child in &children {
        let name = child.name();
        lines.push(format!("<li><a href=\"./{name}\">{name}</a>\n"));
    }
    let top = "<ul>\n<li class=top><a href=\"..\">..</a>\n";
    for size in 120..400 {
        let before: Vec<u8> = (0..size).map(|i| (i % 251) as u8).collect();
        let mut stream = ResponseStream::new(before.clone());
        stream.serve_index("<ul>\n", false, &children).unwrap();
        assert_eq!(stream.into_buf(), buffer_of_lines(before, top, &lines));
    }
}
