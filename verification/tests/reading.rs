use zipring::entry::{method_from_number, Entry, Method};
use zipring::reading::{
    is_end64_out_of_range, listed_entries, locate_end64, ArchiveRead, ArchiveReading, ListedEntry,
};

/// The line of the directory for an entry.
fn line(name: &str, method: u16, offset: u32) -> Vec<u8> {
    let mut l = b"PK\x01\x02\x14\x00\x14\x00\x00\x08".to_vec();
    l.extend_from_slice(&method.to_le_bytes());
    l.extend_from_slice(&[0; 4]);
    l.extend_from_slice(&0x01020304u32.to_le_bytes());
    l.extend_from_slice(&5u32.to_le_bytes());
    l.extend_from_slice(&6u32.to_le_bytes());
    l.extend_from_slice(&(name.len() as u16).to_le_bytes());
    l.extend_from_slice(&[0; 12]);
    l.extend_from_slice(&offset.to_le_bytes());
    l.extend_from_slice(name.as_bytes());
    l
}

/// An archive of a directory alone, with a text before it that is not counted in its offsets.
fn archive(before: &[u8], lines: &[Vec<u8>]) -> Vec<u8> {
    let directory = lines.concat();
    let mut a = before.to_vec();
    a.extend_from_slice(&directory);
    a.extend_from_slice(b"PK\x05\x06\x00\x00\x00\x00");
    a.extend_from_slice(&(lines.len() as u16).to_le_bytes());
    a.extend_from_slice(&(lines.len() as u16).to_le_bytes());
    a.extend_from_slice(&(directory.len() as u32).to_le_bytes());
    a.extend_from_slice(&0u32.to_le_bytes());
    a.extend_from_slice(&[0, 0]);
    a
}

/// Reads an archive, no more than `most` bytes at a time.
fn read(archive: &[u8], most: usize) -> ArchiveRead {
    let mut reading = ArchiveReading::start(archive.len() as u64);
    loop {
        if let Some(read) = reading.next_read(most) {
            assert!(read.len <= most);
            let start = (read.offset as usize).min(archive.len());
            let end = (start + read.len).min(archive.len());
            assert!(reading.received(&archive[start..end]));
        }
        reading = match reading.process() {
            ArchiveRead::More(next) => next,
            other => return other,
        };
    }
}

fn entries(archive: &[u8], most: usize) -> Vec<Entry> {
    match read(archive, most) {
        ArchiveRead::Done(entries) => entries,
        _ => panic!("the archive should be read"),
    }
}

#[test]
fn test_entries_in_the_order_of_the_directory() {
    let a = archive(
        b"",
        &[line("b", 0, 7), line("a/", 8, 8), line("\u{e9}", 93, 9), line("x", 77, 10)],
    );
    for most in [1, 3, 50, 100_000] {
        let found = entries(&a, most);
        assert_eq!(found.len(), 4);
        let names: Vec<&str> = found.iter().map(|e| e.name.as_str()).collect();
        assert_eq!(names, ["b", "a/", "\u{e9}", "x"]);
        let methods: Vec<Method> = found.iter().map(|e| e.method).collect();
        assert_eq!(
            methods,
            [Method::Store, Method::Deflate, Method::Zstd, Method::Unrecognized(77)]
        );
        let offsets: Vec<u64> = found.iter().map(|e| e.header_offset).collect();
        assert_eq!(offsets, [7, 8, 9, 10]);
        assert!(found.iter().all(|e| e.crc32 == 0x01020304));
        assert!(found.iter().all(|e| e.compressed_size == 5 && e.uncompressed_size == 6));
    }
}

#[test]
fn test_offsets_count_from_what_stands_before_the_archive() {
    let found = entries(&archive(b"twelve bytes", &[line("f", 0, 30)]), 1000);
    assert_eq!(found.len(), 1);
    assert_eq!(found[0].header_offset, 42);
}

#[test]
fn test_no_archive() {
    assert!(matches!(read(b"", 100), ArchiveRead::Failed(_)));
    assert!(matches!(read(b"no archive at all", 100), ArchiveRead::Failed(_)));
    // The end record announces more entries than there are.
    let mut a = archive(b"", &[line("f", 0, 0)]);
    let n = a.len();
    a[n - 12] = 2;
    assert!(matches!(read(&a, 100), ArchiveRead::Failed(_)));
}

#[test]
fn test_reads_follow_each_other() {
    let a = archive(b"", &[line("f", 0, 0)]);
    let mut reading = ArchiveReading::start(a.len() as u64);
    let first = reading.next_read(10).unwrap();
    assert_eq!((first.offset, first.len), (0, 10));
    assert!(reading.received(&a[..4]));
    let second = reading.next_read(10).unwrap();
    assert_eq!((second.offset, second.len), (4, 10));
    // Only the last part of a large archive is looked at for its end record.
    let mut large = ArchiveReading::start(1_000_000);
    let read = large.next_read(usize::MAX).unwrap();
    assert_eq!(read.offset, 1_000_000 - 65 * 1024);
    // More than there is room for is not taken.
    let data = vec![0u8; read.len + 1];
    assert!(!large.received(&data));
    assert!(large.received(&data[1..]));
}

/// A ZIP64 end record for an empty directory.
fn end64(directory_size: u64, directory_offset: u64) -> Vec<u8> {
    let mut r = b"PK\x06\x06".to_vec();
    r.extend_from_slice(&44u64.to_le_bytes());
    r.extend_from_slice(&[45, 0, 45, 0]);
    r.extend_from_slice(&[0; 8]);
    r.extend_from_slice(&0u64.to_le_bytes());
    r.extend_from_slice(&0u64.to_le_bytes());
    r.extend_from_slice(&directory_size.to_le_bytes());
    r.extend_from_slice(&directory_offset.to_le_bytes());
    r
}

/// An archive with nothing but its end records.
fn archive64(directory_offset: u64) -> Vec<u8> {
    let mut a = end64(0, directory_offset);
    a.extend_from_slice(b"PK\x06\x07\x00\x00\x00\x00");
    a.extend_from_slice(&0u64.to_le_bytes());
    a.extend_from_slice(&1u32.to_le_bytes());
    a.extend_from_slice(b"PK\x05\x06\x00\x00\x00\x00");
    a.extend_from_slice(&[0xff; 12]);
    a.extend_from_slice(&[0, 0]);
    a
}

#[test]
fn test_directory_offset_out_of_range() {
    for most in [1, 20, 1000] {
        assert!(entries(&archive64(0), most).is_empty());
        assert!(matches!(read(&archive64(1 << 63), most), ArchiveRead::OutOfRange));
        // The least offset that is in range again is refused by the reader, or read.
        assert!(!matches!(read(&archive64((1 << 63) + 1), most), ArchiveRead::OutOfRange));
    }
}

#[test]
fn test_only_the_end_record_is_held_to_the_range() {
    // The comment of an entry looks like an end record that is out of range, and so does what
    // stands before the archive. Reads of one byte begin at each of their bytes.
    let record = end64(0, 1 << 63);
    let mut l = line("f", 0, 0);
    l[32..34].copy_from_slice(&(record.len() as u16).to_le_bytes());
    l.extend_from_slice(&record);
    for before in [&b""[..], &record] {
        for most in [1, 2, 47, 1000] {
            let found = entries(&archive(before, &[l.clone()]), most);
            assert_eq!(found.len(), 1);
            assert_eq!(found[0].name, "f");
        }
    }
}

#[test]
fn test_locators() {
    let mut l = b"PK\x06\x07\x00\x00\x00\x00".to_vec();
    l.extend_from_slice(&0x0102030405060708u64.to_le_bytes());
    assert_eq!(locate_end64(&l), None);
    l.extend_from_slice(&[1, 0, 0, 0]);
    assert_eq!(locate_end64(&l), Some(0x0102030405060708));
    l[3] = 6;
    assert_eq!(locate_end64(&l), None);
}

#[test]
fn test_range_of_directory_offsets() {
    let size = 1000;
    assert!(is_end64_out_of_range(size, 100, &end64(0, 1 << 63)));
    assert!(is_end64_out_of_range(size, 100, &end64(0, (1 << 63) + 100)));
    assert!(!is_end64_out_of_range(size, 100, &end64(0, (1 << 63) + 101)));
    assert!(is_end64_out_of_range(size, 100, &end64(100, 1 << 63)));
    assert!(!is_end64_out_of_range(size, 100, &end64(100, (1 << 63) + 1)));
    // A signed number that is not negative.
    assert!(!is_end64_out_of_range(size, 100, &end64(0, (1 << 63) - 1)));
    // The directory would begin before or behind the archive.
    assert!(!is_end64_out_of_range(size, 100, &end64(101, 1 << 63)));
    assert!(!is_end64_out_of_range(size, 1000, &end64(0, 1 << 63)));
    assert!(is_end64_out_of_range(size, 999, &end64(0, 1 << 63)));
    // No end record, or not a whole one.
    let mut other = end64(0, 1 << 63);
    assert!(!is_end64_out_of_range(size, 100, &other[..55]));
    other[3] = 5;
    assert!(!is_end64_out_of_range(size, 100, &other));
}

#[test]
fn test_methods_of_numbers() {
    let numbers = [0, 8, 9, 12, 14, 93, 94, 95, 96, 97, 98, 99, 1, 100, 65535];
    let methods = [
        Method::Store,
        Method::Deflate,
        Method::Deflate64,
        Method::Bzip2,
        Method::Lzma,
        Method::Zstd,
        Method::Mp3,
        Method::Xz,
        Method::Jpeg,
        Method::WavPack,
        Method::Ppmd,
        Method::Aex,
        Method::Unrecognized(1),
        Method::Unrecognized(100),
        Method::Unrecognized(65535),
    ];
    for (number, method) in numbers.iter().zip(methods) {
        assert_eq!(method_from_number(*number), method);
    }
}

#[test]
fn test_listed_entries_become_entries() {
    let listed = |name: &str, method: u16| ListedEntry {
        name: name.to_string(),
        method,
        header_offset: 1,
        crc32: 2,
        compressed_size: 3,
        uncompressed_size: 4,
    };
    let entries = listed_entries(vec![listed("a", 9), listed("b/", 0)]);
    assert_eq!(entries.len(), 2);
    assert_eq!((entries[0].name.as_str(), entries[0].method), ("a", Method::Deflate64));
    assert_eq!((entries[1].name.as_str(), entries[1].method), ("b/", Method::Store));
    let e = &entries[1];
    assert_eq!(
        (e.header_offset, e.crc32, e.compressed_size, e.uncompressed_size),
        (1, 2, 3, 4)
    );
}
