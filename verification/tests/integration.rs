use std::io::{Read, Write};

use zipring::archive::tree_of_entries;
use zipring::connection::{after_read, after_response, Step, BUFFER_LEN};
use zipring::entry::{Entry, Method};
use zipring::fstree::FsTreeNode;
use zipring::reading::{ArchiveRead, ArchiveReading};
use zipring::request::parse_next_request;
use zipring::response::{can_respond, respond};
use zipring::stream::Transfer;
use zipring::transfer::{Action, Decoded, ReadAt};

const PREAMBLE: &str = "<!doctype html>\n<title>Index</title>\n<ul>\n";

/// An archive in memory, with its tree.
struct Server {
    archive: Vec<u8>,
    tree: FsTreeNode,
}

fn deflate(data: &[u8]) -> Vec<u8> {
    let mut encoder =
        flate2::write::DeflateEncoder::new(Vec::new(), flate2::Compression::default());
    encoder.write_all(data).unwrap();
    encoder.finish().unwrap()
}

fn crc32(data: &[u8]) -> u32 {
    let mut crc = flate2::Crc::new();
    crc.update(data);
    crc.sum()
}

/// An archive that is being written.
#[derive(Default)]
struct Writer {
    archive: Vec<u8>,
    directory: Vec<u8>,
    count: u16,
}

impl Writer {
    /// Appends an entry: its local header, its data, and its line in the directory.
    fn add(&mut self, name: &str, data: &[u8], method: Method) {
        let stored = match method {
            Method::Deflate => deflate(data),
            _ => data.to_vec(),
        };
        let number: u16 = match method {
            Method::Deflate => 8,
            _ => 0,
        };
        // What both headers hold: version, flags, method, time, checksum and sizes.
        let mut common = vec![20, 0, 0, 0];
        common.extend_from_slice(&number.to_le_bytes());
        common.extend_from_slice(&0u32.to_le_bytes());
        common.extend_from_slice(&crc32(data).to_le_bytes());
        common.extend_from_slice(&(stored.len() as u32).to_le_bytes());
        common.extend_from_slice(&(data.len() as u32).to_le_bytes());
        common.extend_from_slice(&(name.len() as u16).to_le_bytes());

        self.directory.extend_from_slice(b"PK\x01\x02\x14\x00");
        self.directory.extend_from_slice(&common);
        self.directory.extend_from_slice(&[0; 12]);
        self.directory.extend_from_slice(&(self.archive.len() as u32).to_le_bytes());
        self.directory.extend_from_slice(name.as_bytes());

        self.archive.extend_from_slice(b"PK\x03\x04");
        self.archive.extend_from_slice(&common);
        self.archive.extend_from_slice(&4u16.to_le_bytes());
        self.archive.extend_from_slice(name.as_bytes());
        self.archive.extend_from_slice(&[0xfe, 0xca, 0, 0]);
        self.archive.extend_from_slice(&stored);
        self.count += 1;
    }

    /// The archive with its directory and its end record.
    fn finish(mut self) -> Vec<u8> {
        let offset = self.archive.len() as u32;
        self.archive.extend_from_slice(&self.directory);
        self.archive.extend_from_slice(b"PK\x05\x06\x00\x00\x00\x00");
        self.archive.extend_from_slice(&self.count.to_le_bytes());
        self.archive.extend_from_slice(&self.count.to_le_bytes());
        self.archive.extend_from_slice(&(self.directory.len() as u32).to_le_bytes());
        self.archive.extend_from_slice(&offset.to_le_bytes());
        self.archive.extend_from_slice(&[0, 0]);
        self.archive
    }
}

/// The entries of an archive, which is read in small parts.
fn read_entries(archive: &[u8]) -> Vec<Entry> {
    let mut buf = vec![0u8; 4096];
    let mut reading = ArchiveReading::start(archive.len() as u64);
    loop {
        if let Some(read) = reading.next_read(buf.len()) {
            let n = read_at(archive, &mut buf, read);
            assert!(reading.received(&buf[..n]));
        }
        reading = match reading.process() {
            ArchiveRead::More(next) => next,
            ArchiveRead::Done(entries) => return entries,
            ArchiveRead::Failed(error) => panic!("could not parse zip: {error:?}"),
            ArchiveRead::OutOfRange => panic!("the archive should be in range"),
        };
    }
}

fn index_page() -> String {
    let mut page = String::from("<html><body>\n");
    let mut x: u32 = 1;
    for i in 0..400 {
        x = x.wrapping_mul(1664525).wrapping_add(1013904223);
        page += &format!("<p>Article {i}: {x:08x}</p>\n");
    }
    page + "</body></html>"
}

fn image() -> Vec<u8> {
    let mut data = b"\x89PNG\r\n\x1a\n".to_vec();
    for i in 0..5000u32 {
        data.push((i * 7 % 251) as u8);
    }
    data
}

fn start_server() -> Server {
    let mut writer = Writer::default();
    writer.add("index.html", index_page().as_bytes(), Method::Deflate);
    writer.add("style.css", b"body { margin: 0 }\n", Method::Deflate);
    writer.add("images/", b"", Method::Store);
    writer.add("images/000001.png", b"\x89PNG", Method::Store);
    writer.add("images/000000.png", &image(), Method::Store);
    writer.add("metadata.opf", b"<package/>", Method::Deflate);
    let archive = writer.finish();
    let tree = tree_of_entries(read_entries(&archive));
    Server { archive, tree }
}

/// Reads a part of an archive into a buffer, no more than 700 bytes at a time.
fn read_at(archive: &[u8], buf: &mut [u8], read: ReadAt) -> usize {
    let start = (read.offset as usize).min(archive.len());
    let n = read.len.min(archive.len() - start).min(700);
    buf[..n].copy_from_slice(&archive[start..start + n]);
    n
}

/// What a connection sends back for what comes in, and whether it is closed then.
fn connect(server: &Server, requests: &[&[u8]]) -> (Vec<u8>, bool) {
    let mut sent = Vec::new();
    let mut buf = vec![0u8; BUFFER_LEN];
    for request in requests {
        buf[..request.len()].copy_from_slice(request);
        let result = parse_next_request(Some(request.len()), buf);
        let keep_alive = match after_read(&result) {
            Step::Respond { keep_alive } => keep_alive,
            _ => return (sent, true),
        };
        let request = result.unwrap();
        assert!(can_respond(&request, &server.tree));
        let response = respond(request, &server.tree, PREAMBLE);
        let mut stream = response.stream;
        match response.left.unwrap() {
            Transfer::Finished => {}
            Transfer::Compressed(mut transfer) => loop {
                match transfer.next_action(&stream) {
                    Action::ReadHeader(read) => {
                        read_at(&server.archive, &mut stream.buf, ReadAt { len: 1024, ..read });
                        assert!(transfer.located(&stream));
                    }
                    Action::ReadData(read) => {
                        let n = read_at(&server.archive, &mut stream.buf, read);
                        transfer.received(&mut stream, n);
                    }
                    Action::Finish => {
                        transfer.finish(&mut stream);
                        break;
                    }
                }
            },
            Transfer::Decompressed(mut transfer) => loop {
                if let Some(read) = transfer.next_read(&stream) {
                    let n = read_at(&server.archive, &mut stream.buf, read);
                    assert!(transfer.received(&stream.buf[..n]));
                }
                match transfer.process(&mut stream) {
                    Decoded::More(next, _) => transfer = next,
                    Decoded::Done => break,
                    Decoded::Failed(error) => panic!("decoding failed: {error:?}"),
                }
            },
        }
        sent.extend_from_slice(&stream.out);
        buf = stream.into_buf();
        if after_response(true, keep_alive) == Step::Close {
            return (sent, true);
        }
    }
    (sent, false)
}

fn split(response: &[u8]) -> (String, Vec<u8>) {
    let end = response.windows(4).position(|w| w == b"\r\n\r\n").unwrap() + 4;
    let headers = String::from_utf8(response[..end].to_vec()).unwrap();
    let body = &response[end..];
    if let Some(line) = headers.lines().find(|line| line.starts_with("Content-Length: ")) {
        let length: usize = line["Content-Length: ".len()..].parse().unwrap();
        assert_eq!(body.len(), length, "Too much data in response stream");
        return (headers, body.to_vec());
    }
    if !headers.contains("Transfer-Encoding: chunked") {
        assert!(body.is_empty());
        return (headers, Vec::new());
    }
    let mut page = Vec::new();
    let mut rest = body;
    loop {
        let line_end = rest.windows(2).position(|w| w == b"\r\n").unwrap();
        let digits = std::str::from_utf8(&rest[..line_end]).unwrap();
        let size = usize::from_str_radix(digits, 16).expect("Chunk size should be hex");
        rest = &rest[line_end + 2..];
        page.extend_from_slice(&rest[..size]);
        rest = &rest[size + 2..];
        if size == 0 {
            assert!(rest.is_empty(), "Too much data in response stream");
            return (headers, page);
        }
    }
}

fn make_request(server: &Server, path: &str, encodings: &str) -> (String, Vec<u8>) {
    let request = format!(
        "GET {path} HTTP/1.1\r\nHost: localhost\r\nConnection: close\r\nAccept-Encoding: {encodings}\r\n\r\n"
    );
    let (sent, closed) = connect(server, &[request.as_bytes()]);
    assert!(closed);
    split(&sent)
}

#[test]
fn test_request_root() {
    let server = start_server();

    let (headers, _body) = make_request(&server, "/", "gzip");
    assert!(headers.contains("200 OK"), "Root should return 200");
    assert!(
        headers.contains("Content-Type: text/html"),
        "Root should be HTML"
    );
}

#[test]
fn test_request_index_html() {
    let server = start_server();

    let (headers, body) = make_request(&server, "/index.html", "gzip");
    assert!(headers.contains("200 OK"), "index.html should return 200");
    assert!(
        headers.contains("Content-Type: text/html"),
        "index.html should be HTML"
    );
    assert!(!body.is_empty(), "index.html should have content");
    assert!(
        body.len() > 1000,
        "index.html should be larger than 1KB (actual: {} bytes)",
        body.len()
    );
}

#[test]
fn test_request_style_css() {
    let server = start_server();

    let (headers, body) = make_request(&server, "/style.css", "gzip");
    assert!(headers.contains("200 OK"), "style.css should return 200");
    assert!(
        headers.contains("Content-Type: text/css"),
        "style.css should be CSS"
    );
    assert!(!body.is_empty(), "style.css should have content");
}

#[test]
fn test_request_directory_images() {
    let server = start_server();

    let (headers, body) = make_request(&server, "/images", "gzip");
    let body = String::from_utf8(body).expect("Body should be UTF-8");
    assert!(
        headers.contains("200 OK"),
        "images directory should return 200"
    );
    assert!(
        headers.contains("Content-Type: text/html"),
        "images directory listing should be HTML"
    );
    assert!(
        !body.is_empty(),
        "images directory listing should have content"
    );
    assert!(
        body.contains("000000.png"),
        "images directory listing should contain 000000.png"
    );
    assert_eq!(
        body,
        format!(
            "{PREAMBLE}<li class=top><a href=\"..\">..</a>\n<li><a href=\"./000000.png\">000000.png</a>\n<li><a href=\"./000001.png\">000001.png</a>\n"
        )
    );
}

#[test]
fn test_request_image_file() {
    let server = start_server();

    let (headers, body) = make_request(&server, "/images/000000.png", "gzip");
    assert!(headers.contains("200 OK"), "PNG should return 200");
    assert!(
        headers.contains("Content-Type: image/png"),
        "PNG should have image/png type"
    );
    assert!(!body.is_empty(), "PNG should have content");
    assert_eq!(body, image());
}

#[test]
fn test_request_nonexistent_file() {
    let server = start_server();

    let (headers, _body) = make_request(&server, "/nonexistent.txt", "gzip");
    assert!(
        headers.contains("404 Not Found"),
        "Nonexistent file should return 404"
    );
}

#[test]
fn test_request_etag_caching() {
    let server = start_server();

    // First request to get the ETag
    let (headers, _body) = make_request(&server, "/metadata.opf", "gzip");
    assert!(headers.contains("200 OK"));

    let etag = headers
        .lines()
        .find(|line| line.contains("ETag:"))
        .map(|line| {
            line.trim_start_matches("ETag: ")
                .trim_matches('"')
                .to_string()
        });

    assert!(etag.is_some(), "Response should have ETag header");

    // Make a second request with If-None-Match
    let request = format!(
        "GET /metadata.opf HTTP/1.1\r\nHost: localhost\r\nIf-None-Match: \"{}\"\r\nConnection: close\r\n\r\n",
        etag.unwrap()
    );
    let (sent, _) = connect(&server, &[request.as_bytes()]);
    let sent = String::from_utf8(sent).unwrap();
    assert!(
        sent.lines().next().unwrap().contains("304 Not Modified"),
        "ETag match should return 304 Not Modified"
    );
}

#[test]
fn test_request_multiple_sequential() {
    let server = start_server();

    let (headers1, _body) = make_request(&server, "/index.html", "gzip");
    assert!(headers1.contains("200 OK"));

    let (headers2, _) = make_request(&server, "/style.css", "gzip");
    assert!(headers2.contains("200 OK"));

    let (headers3, _) = make_request(&server, "/metadata.opf", "gzip");
    assert!(headers3.contains("200 OK"));
}

#[test]
fn test_requests_ureq() {
    let server = start_server();

    // All requests come over one connection.
    let request: &[u8] =
        b"GET / HTTP/1.1\r\nHost: localhost\r\nAccept-Encoding: gzip\r\n\r\n";
    let (sent, closed) = connect(&server, &[request; 10]);
    assert!(!closed);
    assert_eq!(sent.len() % 10, 0);
    for response in sent.chunks(sent.len() / 10) {
        let (headers, body) = split(response);
        assert!(headers.starts_with("HTTP/1.1 200 OK\r\n"));
        assert!(headers.contains("\r\nContent-Encoding: gzip\r\n"));
        let mut decoder = flate2::read::GzDecoder::new(&body[..]);
        let mut page = Vec::new();
        assert!(decoder.read_to_end(&mut page).is_ok());
        assert_eq!(page, index_page().as_bytes());
    }
}

#[test]
fn test_response_has_proper_headers() {
    let server = start_server();

    let (headers, _body) = make_request(&server, "/index.html", "gzip");

    // Check for required headers
    assert!(
        headers.contains("Content-Type:"),
        "Response should have Content-Type"
    );
    assert!(
        headers.contains("Content-Length:"),
        "Response should have Content-Length"
    );
    assert!(headers.contains("ETag:"), "Response should have ETag");
    assert!(
        headers.contains("Cache-control:"),
        "Response should have Cache-control"
    );
}

#[test]
fn test_content_encoding_gzip() {
    let server = start_server();

    // Deflate-compressed files in the zip should be served with Content-Encoding: gzip
    let (headers, body) = make_request(&server, "/index.html", "gzip");
    assert!(headers.contains("200 OK"));
    assert!(
        headers.contains("Content-Encoding: gzip"),
        "Deflate files should be served as gzip"
    );
    assert!(!body.is_empty(), "Gzipped content should have body");

    // Gzip format starts with magic bytes 0x1f 0x8b
    assert_eq!(
        body[0], 0x1f,
        "Gzipped content should start with gzip magic byte 0x1f"
    );
    assert_eq!(
        body[1], 0x8b,
        "Gzipped content should start with gzip magic byte 0x8b"
    );

    let mut decoder = flate2::read::GzDecoder::new(&body[..]);
    let mut s = String::new();
    decoder
        .read_to_string(&mut s)
        .expect("should be decodable gzip");

    assert!(s.ends_with("</html>"));
    assert_eq!(s, index_page());
}

#[test]
fn test_content_encoding_decompressed() {
    let server = start_server();

    let (headers, body) = make_request(&server, "/index.html", "brotli");
    assert!(headers.contains("200 OK"));
    assert!(
        !headers.contains("Content-Encoding:"),
        "Files should be served decompressed when client doesn't support compression"
    );
    assert!(!body.is_empty(), "content should have body");
    let body = String::from_utf8(body).expect("should be valid utf8");
    assert!(body.ends_with("</html>"));
    assert_eq!(body, index_page());
}

#[test]
fn test_content_length_vs_compressed_size() {
    let server = start_server();

    // When serving compressed content, Content-Length should match the compressed size
    let (headers, body) = make_request(&server, "/index.html", "gzip");

    // Extract Content-Length from headers
    let content_length = headers
        .lines()
        .find(|line| line.starts_with("Content-Length:"))
        .and_then(|line| line.split(": ").nth(1))
        .and_then(|len| len.parse::<usize>().ok())
        .expect("Should have Content-Length header");

    // The (encoded) body should match the Content-Length
    assert_eq!(
        body.len(),
        content_length,
        "Received body size should match Content-Length header"
    );
}

#[test]
fn test_connection_close() {
    let server = start_server();
    let request = b"GET / HTTP/1.1\r\nHost: localhost\r\nConnection: close\r\n\r\n";
    let (body, closed) = connect(&server, &[request, request]);
    assert!(!body.is_empty(), "body should not be empty");
    assert!(closed);
    // The second request was not answered.
    assert_eq!(body.windows(8).filter(|w| w == b"HTTP/1.1").count(), 1);
}

#[test]
fn test_connection_is_kept() {
    let server = start_server();
    let request = b"GET /nowhere HTTP/1.1\r\n\r\n";
    let (sent, closed) = connect(&server, &[request, request, request]);
    assert!(!closed);
    let one = "HTTP/1.1 404 Not Found\r\nContent-Length: 0\r\n\r\n";
    assert_eq!(String::from_utf8(sent).unwrap(), one.repeat(3));
    let (_, closed) = connect(&server, &[b"BAD\r\n\r\n"]);
    assert!(closed);
    let (sent, closed) = connect(&server, &[b""]);
    assert!(closed && sent.is_empty());
}

#[test]
fn test_entries_of_the_archive() {
    let server = start_server();
    let entries = read_entries(&server.archive);
    let names: Vec<&str> = entries.iter().map(|e| e.name.as_str()).collect();
    assert_eq!(
        names,
        [
            "index.html",
            "style.css",
            "images/",
            "images/000001.png",
            "images/000000.png",
            "metadata.opf"
        ]
    );
    assert_eq!(entries[0].method, Method::Deflate);
    assert_eq!(entries[0].header_offset, 0);
    assert_eq!(entries[0].crc32, crc32(index_page().as_bytes()));
    assert_eq!(entries[0].uncompressed_size, index_page().len() as u64);
    assert_eq!(entries[0].compressed_size, deflate(index_page().as_bytes()).len() as u64);
    assert_eq!(entries[4].method, Method::Store);
    assert_eq!(entries[4].compressed_size, image().len() as u64);
    let at = entries[4].header_offset as usize;
    assert_eq!(&server.archive[at..at + 4], b"PK\x03\x04");
    assert_eq!(&server.archive[at + 30..at + 47], b"images/000000.png");
    // Each entry is found under its name.
    for entry in &entries {
        let found = server.tree.find(&entry.name).unwrap().entry().unwrap();
        assert_eq!(found.name, entry.name);
        assert_eq!(found.header_offset, entry.header_offset);
    }
}

#[test]
fn test_requests_are_answered_in_order() {
    let server = start_server();
    let answer = |path: &str| {
        let request = format!("GET {path} HTTP/1.1\r\n\r\n");
        connect(&server, &[request.as_bytes()]).0
    };
    let requests: [&[u8]; 5] = [
        b"GET /style.css HTTP/1.1\r\n\r\n",
        b"GET /nowhere HTTP/1.1\r\n\r\n",
        b"GET /images HTTP/1.1\r\n\r\n",
        b"GET /metadata.opf HTTP/1.1\r\nConnection: close\r\n\r\n",
        b"GET /index.html HTTP/1.1\r\n\r\n",
    ];
    let (sent, closed) = connect(&server, &requests);
    assert!(closed);
    let expected =
        [answer("/style.css"), answer("/nowhere"), answer("/images"), answer("/metadata.opf")];
    assert_eq!(sent, expected.concat());
    // Nothing is answered behind a request that is not understood.
    let (sent, closed) = connect(&server, &[b"PUT / HTTP/1.1\r\n\r\n", requests[0]]);
    assert!(closed);
    assert_eq!(sent, b"HTTP/1.1 405 Method Not Allowed\r\nContent-Length: 0\r\n\r\n");
}
