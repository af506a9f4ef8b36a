use zipring::archive::tree_of_entries;
use zipring::bytes;
use zipring::connection::{after_read, after_response, Step};
use zipring::encoding;
use zipring::entry::{is_method_supported, Entry, Method};
use zipring::settings::{parse_number, port, thread_count};
use zipring::stream::ResponseStream;
use zipring::transfer::{
    read_within, Action, CompressedTransfer, Decoded, DecompressedTransfer, ReadAt,
};
use zipring::zip::{find_entry_compressed_data, Processed};

fn entry(name: &str, method: Method, compressed_size: u64, uncompressed_size: u64) -> Entry {
    Entry {
        name: name.to_string(),
        method,
        header_offset: 100,
        crc32: 0x01020304,
        compressed_size,
        uncompressed_size,
    }
}

/// A local header with a name and an extra field of some lengths.
fn local_header(method: u16, name_len: u16, extra_len: u16) -> Vec<u8> {
    let mut h = b"PK\x03\x04".to_vec();
    h.extend_from_slice(&[20, 0, 0, 0]);
    h.extend_from_slice(&method.to_le_bytes());
    h.extend_from_slice(&[0; 16]);
    h.extend_from_slice(&name_len.to_le_bytes());
    h.extend_from_slice(&extra_len.to_le_bytes());
    h.resize(30 + name_len as usize + extra_len as usize, b'n');
    h
}

#[test]
fn test_local_headers() {
    assert_eq!(find_entry_compressed_data(1000, &local_header(8, 5, 7)), Some(1042));
    assert_eq!(find_entry_compressed_data(0, &local_header(0, 300, 0)), Some(330));
    // The name is not whole.
    let mut cut = local_header(8, 5, 7);
    cut.pop();
    assert_eq!(find_entry_compressed_data(1000, &cut), None);
    // The signature is another.
    let mut other = local_header(8, 5, 7);
    other[3] = 5;
    assert_eq!(find_entry_compressed_data(1000, &other), None);
    assert_eq!(find_entry_compressed_data(1000, b"PK\x03\x04"), None);
}

#[test]
fn test_local_headers_of_lzma_entries() {
    let mut h = local_header(14, 1, 0);
    assert_eq!(find_entry_compressed_data(0, &h), None);
    h.extend_from_slice(&[2, 0, 5, 0]);
    assert_eq!(find_entry_compressed_data(0, &h), Some(31));
    h[31] = 9;
    assert_eq!(find_entry_compressed_data(0, &h), None);
}

#[test]
fn test_compressed_transfer_step_by_step() {
    let e = entry("f", Method::Deflate, 10, 0x1_0000_0005);
    let mut stream = ResponseStream::new(vec![0u8; 64]);
    let mut t = CompressedTransfer::start(&e, &mut stream);
    assert_eq!(stream.out, [0x1f, 0x8b, 8, 0, 0, 0, 0, 0, 0, 0xff]);
    assert_eq!(t.next_action(&stream), Action::ReadHeader(ReadAt { offset: 100, len: 1024 }));
    assert!(!t.located(&stream));
    assert_eq!(t.next_action(&stream), Action::ReadHeader(ReadAt { offset: 100, len: 1024 }));
    let header = local_header(8, 2, 3);
    stream.buf[..header.len()].copy_from_slice(&header);
    assert!(t.located(&stream));
    stream.out.clear();
    assert_eq!(t.next_action(&stream), Action::ReadData(ReadAt { offset: 135, len: 10 }));
    stream.buf[..6].copy_from_slice(b"abcdef");
    t.received(&mut stream, 6);
    assert_eq!(t.next_action(&stream), Action::ReadData(ReadAt { offset: 141, len: 4 }));
    t.received(&mut stream, 0);
    stream.buf[..4].copy_from_slice(b"ghij");
    t.received(&mut stream, 4);
    assert_eq!(t.next_action(&stream), Action::Finish);
    let before = stream.buf.clone();
    t.finish(&mut stream);
    assert_eq!(stream.out, b"abcdefghij\x04\x03\x02\x01\x05\x00\x00\x00");
    // What comes behind the data is sent from the front of the buffer.
    assert_eq!(&stream.buf[..8], b"\x04\x03\x02\x01\x05\x00\x00\x00");
    assert_eq!(&stream.buf[8..], &before[8..]);
}

#[test]
fn test_zstd_data_has_nothing_around_it() {
    let e = entry("f", Method::Zstd, 3, 9);
    let mut stream = ResponseStream::new(vec![0u8; 2]);
    let mut t = CompressedTransfer::start(&e, &mut stream);
    stream.buf = local_header(93, 0, 0);
    assert!(t.located(&stream));
    stream.buf = b"xy".to_vec();
    assert_eq!(t.next_action(&stream), Action::ReadData(ReadAt { offset: 130, len: 2 }));
    t.received(&mut stream, 2);
    t.received(&mut stream, 1);
    t.finish(&mut stream);
    assert_eq!(stream.out, b"xyx");
    assert_eq!(stream.buf, b"xy");
}

/// Decodes what stands in an archive from an offset on.
fn decode(archive: &[u8], buf_len: usize) -> Result<Vec<u8>, rc_zip::error::Error> {
    let mut e = entry("f", Method::Store, 0, 0);
    e.header_offset = 0;
    let mut stream = ResponseStream::new(vec![0u8; buf_len]);
    let mut t = DecompressedTransfer::start(&e);
    for _ in 0..1000 {
        if let Some(read) = t.next_read(&stream) {
            let start = (read.offset as usize).min(archive.len());
            let n = read.len.min(archive.len() - start);
            assert!(n <= buf_len);
            assert!(t.received(&archive[start..start + n]));
        }
        match t.process(&mut stream) {
            Decoded::More(next, written) => {
                assert!(written <= buf_len);
                assert!(stream.out.ends_with(&stream.buf[..written]));
                t = next;
            }
            Decoded::Done => return Ok(stream.out),
            Decoded::Failed(error) => return Err(error),
        }
    }
    panic!("the entry should have an end")
}

fn stored(data: &[u8], crc32: u32) -> Vec<u8> {
    let mut h = local_header(0, 1, 0);
    h[14..18].copy_from_slice(&crc32.to_le_bytes());
    h[18..22].copy_from_slice(&(data.len() as u32).to_le_bytes());
    h[22..26].copy_from_slice(&(data.len() as u32).to_le_bytes());
    h.extend_from_slice(data);
    h
}

#[test]
fn test_decoding_in_small_steps() {
    let data = b"The quick brown fox jumps over the lazy dog";
    let archive = stored(data, 0x414FA339);
    assert_eq!(decode(&archive, 7).unwrap(), data);
    assert_eq!(decode(&archive, 1024).unwrap(), data);
}

/// Writes bits into bytes, the least significant first.
#[derive(Default)]
struct Bits {
    bytes: Vec<u8>,
    count: usize,
}

impl Bits {
    fn push(&mut self, bit: u32) {
        if self.count % 8 == 0 {
            self.bytes.push(0);
        }
        *self.bytes.last_mut().unwrap() |= (bit as u8) << (self.count % 8);
        self.count += 1;
    }

    /// A number, its least significant bit first.
    fn number(&mut self, n: u32, len: u32) {
        for i in 0..len {
            self.push((n >> i) & 1);
        }
    }

    /// A Huffman code, its most significant bit first.
    fn code(&mut self, n: u32, len: u32) {
        for i in (0..len).rev() {
            self.push((n >> i) & 1);
        }
    }
}

/// Deflate64 data for a letter that is repeated: `first` times, then in a match of a length, then
/// `last` times. The codes of the match are as long as codes can be.
fn deflate64(first: usize, length: u32, last: usize) -> Vec<u8> {
    let mut bits = Bits::default();
    // The last block, with trees of its own, for 286 literals and lengths and 5 distances.
    bits.number(1, 1);
    bits.number(2, 2);
    bits.number(286 - 257, 5);
    bits.number(5 - 1, 5);
    bits.number(19 - 4, 4);
    for symbol in [16, 17, 18, 0, 8, 7, 9, 6, 10, 5, 11, 4, 12, 3, 13, 2, 14, 1, 15] {
        let len = if [0, 1, 2, 15, 18].contains(&symbol) { 3 } else { 0 };
        bits.number(len, 3);
    }
    let zeros = |bits: &mut Bits, n: u32| {
        bits.code(4, 3);
        bits.number(n - 11, 7);
    };
    zeros(&mut bits, 97);
    bits.code(1, 3);
    zeros(&mut bits, 138);
    zeros(&mut bits, 20);
    bits.code(2, 3);
    zeros(&mut bits, 28);
    bits.code(3, 3);
    for _ in 0..4 {
        bits.code(0, 3);
    }
    bits.code(3, 3);
    for _ in 0..first {
        bits.code(0, 1);
    }
    bits.code(6 << 12, 15);
    bits.number(length - 3, 16);
    bits.code(0, 15);
    bits.number(0, 1);
    for _ in 0..last {
        bits.code(0, 1);
    }
    bits.code(2, 2);
    bits.bytes
}

#[test]
fn test_decoding_deflate64_however_it_is_divided() {
    for first in 5..29 {
        for last in [0, 1, 5] {
            let data = deflate64(first, 300, last);
            let decoded = vec![b'a'; first + 300 + last];
            let mut crc = flate2::Crc::new();
            crc.update(&decoded);
            let mut archive = stored(&data, crc.sum());
            archive[8..10].copy_from_slice(&9u16.to_le_bytes());
            archive[22..26].copy_from_slice(&(decoded.len() as u32).to_le_bytes());
            for buf_len in [3, 7, 8, 9, 10, 11, 13, 64, 1024] {
                assert_eq!(decode(&archive, buf_len).unwrap(), decoded);
            }
        }
    }
}

#[test]
fn test_decoding_checks_the_checksum() {
    assert!(decode(&stored(b"The quick brown fox", 0x12345678), 64).is_err());
    assert!(decode(b"PK\x05\x06 no local header at all, but long enough", 64).is_err());
}

#[test]
fn test_decoder_takes_no_more_than_it_has_room_for() {
    let mut t = DecompressedTransfer::start(&entry("f", Method::Store, 1, 1));
    assert!(!t.received(&vec![0u8; 256 * 1024 + 1]));
    assert_eq!(t.offset, 100);
    assert!(t.received(&[0u8; 10]));
    assert_eq!(t.offset, 110);
}

#[test]
fn test_sending_what_was_decoded() {
    let mut stream = ResponseStream::new(b"abcdef".to_vec());
    let fsm = rc_zip::fsm::EntryFsm::new(None, None);
    match DecompressedTransfer::send_processed(Processed::Continue(fsm, 3), 77, &mut stream) {
        Decoded::More(t, written) => {
            assert_eq!(t.offset, 77);
            assert_eq!(written, 3);
        }
        _ => panic!("there should be more"),
    }
    assert_eq!(stream.out, b"abc");
    let done = DecompressedTransfer::send_processed(Processed::Done, 77, &mut stream);
    assert!(matches!(done, Decoded::Done));
    assert_eq!(stream.out, b"abc");
}

#[test]
fn test_reads_take_the_smaller_room() {
    assert_eq!(read_within(5, 10, 20), ReadAt { offset: 5, len: 10 });
    assert_eq!(read_within(5, 30, 20), ReadAt { offset: 5, len: 20 });
}

#[test]
fn test_supported_methods() {
    for method in [
        Method::Store,
        Method::Deflate,
        Method::Deflate64,
        Method::Bzip2,
        Method::Lzma,
        Method::Zstd,
    ] {
        assert!(is_method_supported(method));
    }
    for method in [
        Method::Mp3,
        Method::Xz,
        Method::Jpeg,
        Method::WavPack,
        Method::Ppmd,
        Method::Aex,
        Method::Unrecognized(77),
    ] {
        assert!(!is_method_supported(method));
    }
}

#[test]
fn test_tree_of_entries() {
    let tree = tree_of_entries(vec![
        entry("b/2", Method::Store, 2, 2),
        entry("b/", Method::Store, 0, 0),
        entry("a", Method::Store, 1, 1),
        entry("b/1", Method::Store, 3, 3),
    ]);
    assert_eq!(tree.find("a").unwrap().entry().unwrap().compressed_size, 1);
    assert_eq!(tree.find("b/2").unwrap().entry().unwrap().compressed_size, 2);
    assert_eq!(tree.find("b/1").unwrap().entry().unwrap().compressed_size, 3);
    assert_eq!(tree.find("b").unwrap().entry().unwrap().name, "b/");
}

#[test]
fn test_entry_of_a_directory_stays() {
    let tree = tree_of_entries(vec![
        entry("d/e/", Method::Store, 1, 1),
        entry("d/e/f", Method::Store, 2, 2),
        entry("d/", Method::Store, 3, 3),
        entry("d/e/g/", Method::Store, 4, 4),
        entry("d/x/", Method::Store, 5, 5),
        entry("d/x/", Method::Store, 6, 6),
    ]);
    let size = |path: &str| tree.find(path).unwrap().entry().unwrap().compressed_size;
    assert_eq!(size("d/e/"), 1);
    assert_eq!(size("d/"), 3);
    assert_eq!(size("d/e/g/"), 4);
    // Of two for one directory the last counts.
    assert_eq!(size("d/x/"), 6);
}

#[test]
fn test_port_setting() {
    assert_eq!(port(None), 50002);
    assert_eq!(port(Some("8080")), 8080);
    assert_eq!(port(Some("+0080")), 80);
    assert_eq!(port(Some("65535")), 65535);
    for text in ["65536", "", "+", "-1", " 80", "80 ", "8o80", "++8", "99999999999999999999999"] {
        assert_eq!(port(Some(text)), 50002);
    }
}

#[test]
fn test_thread_setting() {
    assert_eq!(thread_count(None, Some(4)), 4);
    assert_eq!(thread_count(None, Some(64)), 8);
    assert_eq!(thread_count(None, None), 1);
    assert_eq!(thread_count(Some("0"), Some(4)), 4);
    assert_eq!(thread_count(Some("many"), None), 1);
    assert_eq!(thread_count(Some("32"), Some(4)), 32);
}

#[test]
fn test_numbers() {
    assert_eq!(parse_number("18446744073709551615", u64::MAX), Some(u64::MAX));
    assert_eq!(parse_number("18446744073709551616", u64::MAX), None);
    assert_eq!(parse_number("7", 6), None);
    assert_eq!(parse_number("00000000000000000000000006", 6), Some(6));
}

#[test]
fn test_steps_of_a_connection() {
    assert_eq!(after_read(&Err(vec![])), Step::Close);
    assert_eq!(after_response(true, true), Step::Read);
    assert_eq!(after_response(true, false), Step::Close);
    assert_eq!(after_response(false, true), Step::Close);
}

#[test]
fn test_byte_strings() {
    assert_eq!(bytes::position(b"abcabc", b'c'), Some(2));
    assert_eq!(bytes::position(b"abc", b'x'), None);
    assert!(bytes::eq_ignore_ascii_case(b"ConNECTion", b"connectION"));
    assert!(!bytes::eq_ignore_ascii_case(b"[", b"{"));
    assert!(bytes::contains(b"br, gzip;q=1", b"gzip"));
    assert!(bytes::contains(b"x", b""));
    assert!(!bytes::contains(b"gzi", b"gzip"));
    assert!(!bytes::contains(b"gzigzi", b"gzip"));
}

#[test]
fn test_names_in_links_lead_back() {
    let mut link = b"/".to_vec();
    let name = "a b\u{e9}<>\"`%4%";
    encoding::write_uri(&mut link, name);
    assert_eq!(link, b"/a%20b%C3%A9%3C%3E%22%60%4%");
    let request = [b"GET ", &link[..], b" HTTP/1.1\r\n\r\n"].concat();
    let mut buf = vec![0u8; 256];
    buf[..request.len()].copy_from_slice(&request);
    match zipring::request::parse_next_request(Some(request.len()), buf).unwrap() {
        zipring::request::Request::Get { path, .. } => {
            assert_eq!(path.as_slice(), format!("/{name}").as_bytes());
        }
        zipring::request::Request::Bad { .. } => panic!("the request should be read"),
    }
}

#[test]
fn test_bytes_of_numbers() {
    assert_eq!(encoding::to_le_bytes(0x01020304), [4, 3, 2, 1]);
    assert_eq!(encoding::to_be_bytes(0x0102, 3), vec![0, 1, 2]);
    assert_eq!(zipring::request::from_be_bytes([1, 2, 3, 4]), 0x01020304);
}
