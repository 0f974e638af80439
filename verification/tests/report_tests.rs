use netforensics::report::{
    append_lines, endpoint_line, extract_endpoints, extract_urls, find_endpoints, hash_files,
    hash_line, header, package, ManifestEntry, OnDisk, PackageError, ReportMetadata,
};
use netforensics::urls::{canonical_url, canonicalize, collect_urls, find_urls, UrlParts, URL_PATTERN};

const ABC_SHA256: &str = "ba7816bf8f01cfea414140de5dae2223b00361a396177a9cb410ff61f20015ad";
const EMPTY_SHA256: &str = "e3b0c44298fc1c149afbf4c8996fb92427ae41e4649b934ca495991b7852b855";

fn file(path: &str, bytes: &[u8]) -> ManifestEntry {
    ManifestEntry { path: path.to_string(), on_disk: OnDisk::File(bytes.to_vec()) }
}

fn meta() -> ReportMetadata {
    ReportMetadata {
        name: "Ada".to_string(),
        surname: "Lovelace".to_string(),
        time_start: "2024-01-01 10:00".to_string(),
        time_end: "2024-01-01 11:00".to_string(),
    }
}

fn ethernet(ethertype: u16, payload: &[u8]) -> Vec<u8> {
    let mut f = vec![0x02, 0, 0, 0, 0, 0x01, 0x02, 0, 0, 0, 0, 0x02];
    f.extend_from_slice(&ethertype.to_be_bytes());
    f.extend_from_slice(payload);
    f
}

fn ipv4(protocol: u8, src: [u8; 4], dst: [u8; 4], payload: &[u8]) -> Vec<u8> {
    let total = (20 + payload.len()) as u16;
    let mut p = vec![0x45, 0];
    p.extend_from_slice(&total.to_be_bytes());
    p.extend_from_slice(&[0, 0, 0, 0, 64, protocol, 0, 0]);
    p.extend_from_slice(&src);
    p.extend_from_slice(&dst);
    p.extend_from_slice(payload);
    p
}

fn tcp_frame(src: [u8; 4], src_port: u16, dst: [u8; 4], dst_port: u16) -> Vec<u8> {
    let mut s = Vec::new();
    s.extend_from_slice(&src_port.to_be_bytes());
    s.extend_from_slice(&dst_port.to_be_bytes());
    s.extend_from_slice(&[0, 0, 0, 1, 0, 0, 0, 0, 0x50, 0x18, 0xFF, 0xFF, 0, 0, 0, 0]);
    ethernet(0x0800, &ipv4(6, src, dst, &s))
}

fn udp_frame(src: [u8; 4], src_port: u16, dst: [u8; 4], dst_port: u16) -> Vec<u8> {
    let mut d = Vec::new();
    d.extend_from_slice(&src_port.to_be_bytes());
    d.extend_from_slice(&dst_port.to_be_bytes());
    d.extend_from_slice(&[0, 8, 0, 0]);
    ethernet(0x0800, &ipv4(17, src, dst, &d))
}

#[test]
fn hash_line_has_name_and_hex_digest() {
    assert_eq!(hash_line("a.png", &[0xde, 0xad, 0x01]), "File: a.png - Hash (SHA256): dead01\n");
}

#[test]
fn hash_files_hashes_each_file() {
    let entries = vec![file("/out/abc.txt", b"abc"), file("/out/empty.bin", b"")];
    let (text, files) = hash_files(&entries).unwrap();
    assert_eq!(
        text,
        format!(
            "Extracted Files Hashes\nFile: abc.txt - Hash (SHA256): {}\nFile: empty.bin - Hash (SHA256): {}\n",
            ABC_SHA256, EMPTY_SHA256
        )
    );
    assert_eq!(files.len(), 2);
    assert_eq!(files[0].name, "abc.txt");
    assert_eq!(files[0].content, b"abc".to_vec());
    assert_eq!(files[1].name, "empty.bin");
}

#[test]
fn hash_files_of_nothing_is_the_heading() {
    let (text, files) = hash_files(&Vec::new()).unwrap();
    assert_eq!(text, "Extracted Files Hashes\n");
    assert!(files.is_empty());
}

#[test]
fn hash_files_skips_what_is_not_a_file() {
    let entries = vec![
        ManifestEntry { path: "/out/dir".to_string(), on_disk: OnDisk::NotAFile },
        file("/out/abc.txt", b"abc"),
    ];
    let (text, files) = hash_files(&entries).unwrap();
    assert_eq!(text, format!("Extracted Files Hashes\nFile: abc.txt - Hash (SHA256): {}\n", ABC_SHA256));
    assert_eq!(files.len(), 1);
}

#[test]
fn hash_files_reports_the_first_fault() {
    let entries = vec![
        file("/out/a.txt", b"a"),
        ManifestEntry { path: "/out/gone.txt".to_string(), on_disk: OnDisk::Missing },
        file("/", b"x"),
    ];
    assert_eq!(hash_files(&entries).err(), Some(PackageError::MissingFile { index: 1 }));
    let entries = vec![
        file("/out/..", b"x"),
        ManifestEntry { path: "/out/gone.txt".to_string(), on_disk: OnDisk::Missing },
    ];
    assert_eq!(hash_files(&entries).err(), Some(PackageError::InvalidIdentity { index: 0 }));
}

#[test]
fn header_names_operator_and_window() {
    assert_eq!(
        header(&meta()),
        "Export informations:\nUser: Ada Lovelace\nTime Start:2024-01-01 10:00\nTime End:2024-01-01 11:00\n\n"
    );
}

#[test]
fn append_lines_ends_each_item() {
    let mut out = "head\n".to_string();
    append_lines(&mut out, &vec!["a".to_string(), "".to_string(), "b".to_string()]);
    assert_eq!(out, "head\na\n\nb\n");
    append_lines(&mut out, &Vec::new());
    assert_eq!(out, "head\na\n\nb\n");
}

#[test]
fn endpoint_line_is_direction_address_port() {
    assert_eq!(endpoint_line("src", 0xC0A8_010A, 443), "src: 192.168.1.10:443");
    assert_eq!(endpoint_line("dst", 0, 0), "dst: 0.0.0.0:0");
    assert_eq!(endpoint_line("dst", u32::MAX, u16::MAX), "dst: 255.255.255.255:65535");
    assert_eq!(endpoint_line("src", 0x0102_0304, 80), "src: 1.2.3.4:80");
}

#[test]
fn endpoints_are_listed_once() {
    let frames = vec![
        tcp_frame([10, 0, 0, 1], 50000, [10, 0, 0, 2], 80),
        tcp_frame([10, 0, 0, 2], 80, [10, 0, 0, 1], 50000),
        vec![1, 2, 3],
        udp_frame([10, 0, 0, 1], 5353, [224, 0, 0, 251], 5353),
        tcp_frame([10, 0, 0, 1], 50000, [10, 0, 0, 2], 80),
        ethernet(0x0806, &[0; 40]),
    ];
    assert_eq!(
        find_endpoints(&frames),
        vec![
            "src: 10.0.0.1:50000",
            "dst: 10.0.0.2:80",
            "src: 10.0.0.2:80",
            "dst: 10.0.0.1:50000",
            "src: 10.0.0.1:5353",
            "dst: 224.0.0.251:5353",
        ]
    );
    assert_eq!(
        extract_endpoints(&frames),
        "\nIP adresses with ports:\nsrc: 10.0.0.1:50000\ndst: 10.0.0.2:80\nsrc: 10.0.0.2:80\n\
         dst: 10.0.0.1:50000\nsrc: 10.0.0.1:5353\ndst: 224.0.0.251:5353\n"
    );
    assert_eq!(extract_endpoints(&Vec::new()), "\nIP adresses with ports:\n");
}

#[test]
fn url_canonicalization() {
    assert_eq!(canonicalize("http://example.com/a/b?x=1"), Some("http://example.com/".to_string()));
    assert_eq!(canonicalize("http://example.com/c"), Some("http://example.com/".to_string()));
}

#[test]
fn url_canonicalization_is_idempotent() {
    let once = canonicalize("https://Example.COM:8443/path#frag").unwrap();
    assert_eq!(once, "https://example.com/");
    assert_eq!(canonicalize(&once), Some(once.clone()));
    assert_eq!(canonicalize("http://example.com/"), Some("http://example.com/".to_string()));
    assert_eq!(canonicalize("ftp://files.example.org/pub/x.tar"), Some("ftp://files.example.org/".to_string()));
}

#[test]
fn what_does_not_parse_has_no_canonical_form() {
    assert_eq!(canonicalize("not a url"), None);
    assert_eq!(canonicalize(""), None);
    assert_eq!(canonicalize("http://"), None);
}

#[test]
fn canonical_url_of_given_parts() {
    let with_host = UrlParts { scheme: "https".to_string(), host: Some("h.example".to_string()) };
    let without = UrlParts { scheme: "mailto".to_string(), host: None };
    assert_eq!(canonical_url(&with_host), "https://h.example/");
    assert_eq!(canonical_url(&without), "mailto:///");
}

#[test]
fn collect_urls_adds_new_canonical_forms() {
    let mut seen = vec!["http://a.example/".to_string()];
    let candidates = vec![
        "http://b.example/x".to_string(),
        "http://a.example/y".to_string(),
        "::".to_string(),
        "http://b.example/z".to_string(),
    ];
    collect_urls(&mut seen, &candidates);
    assert_eq!(seen, vec!["http://a.example/", "http://b.example/"]);
}

#[test]
fn urls_are_found_in_capture_bytes() {
    let mut first = b"\x00\x01GET http://example.com/a/b?x=1 HTTP/1.1\r\nReferer: https://other.example/p\r\n".to_vec();
    first.extend_from_slice(&[0xFF, 0xFE]);
    first.extend_from_slice(b" http://example.com/c\n");
    let second = b"ftp://files.example.org/pub/x.tar gopher://old.example/ https://other.example/q".to_vec();
    let captures = vec![first, second];
    assert_eq!(
        find_urls(&captures),
        vec!["http://example.com/", "https://other.example/", "ftp://files.example.org/"]
    );
    assert_eq!(
        extract_urls(&captures),
        "\nWebsites Found in PCAP Files\nhttp://example.com/\nhttps://other.example/\nftp://files.example.org/\n"
    );
    assert_eq!(extract_urls(&Vec::new()), "\nWebsites Found in PCAP Files\n");
    assert_eq!(extract_urls(&vec![b"no links here".to_vec()]), "\nWebsites Found in PCAP Files\n");
}

#[test]
fn the_url_pattern_is_fixed() {
    assert_eq!(URL_PATTERN, r#"(https?|ftp)://[^\s/$.?#].[^\s]*"#);
}

#[test]
fn package_puts_the_report_first() {
    let entries = vec![file("/out/abc.txt", b"abc"), file("/out/pic.png", b"\x89PNG")];
    let captures = vec![b"see http://example.com/x and http://example.com/y".to_vec()];
    let frames = vec![tcp_frame([10, 0, 0, 1], 50000, [10, 0, 0, 2], 80)];
    let archive = package(&meta(), &entries, &captures, &frames).unwrap();
    assert_eq!(archive.len(), 3);
    assert_eq!(archive[0].name, "info.txt");
    let expected = format!(
        "Export informations:\nUser: Ada Lovelace\nTime Start:2024-01-01 10:00\nTime End:2024-01-01 11:00\n\n\
         Extracted Files Hashes\nFile: abc.txt - Hash (SHA256): {}\nFile: pic.png - Hash (SHA256): {}\n\
         \nWebsites Found in PCAP Files\nhttp://example.com/\n\
         \nIP adresses with ports:\nsrc: 10.0.0.1:50000\ndst: 10.0.0.2:80\n",
        ABC_SHA256, "0f4636c78f65d3639ece5a064b5ae753e3408614a14fb18ab4d7540d2c248543"
    );
    assert_eq!(String::from_utf8(archive[0].content.clone()).unwrap(), expected);
    assert_eq!(archive[1].name, "abc.txt");
    assert_eq!(archive[1].content, b"abc".to_vec());
    assert_eq!(archive[2].name, "pic.png");
    assert_eq!(archive[2].content, b"\x89PNG".to_vec());
}

#[test]
fn package_of_an_empty_manifest_holds_only_the_report() {
    let archive = package(&meta(), &Vec::new(), &Vec::new(), &Vec::new()).unwrap();
    assert_eq!(archive.len(), 1);
    assert_eq!(archive[0].name, "info.txt");
    assert_eq!(
        String::from_utf8(archive[0].content.clone()).unwrap(),
        "Export informations:\nUser: Ada Lovelace\nTime Start:2024-01-01 10:00\nTime End:2024-01-01 11:00\n\n\
         Extracted Files Hashes\n\nWebsites Found in PCAP Files\n\nIP adresses with ports:\n"
    );
}

#[test]
fn package_fails_on_a_missing_file() {
    let entries = vec![
        file("/out/abc.txt", b"abc"),
        ManifestEntry { path: "/out/gone.png".to_string(), on_disk: OnDisk::Missing },
    ];
    let r = package(&meta(), &entries, &Vec::new(), &Vec::new());
    assert_eq!(r.err(), Some(PackageError::MissingFile { index: 1 }));
}

#[test]
fn package_fails_on_a_file_that_cannot_be_read() {
    let entries = vec![
        ManifestEntry { path: "/out/dir".to_string(), on_disk: OnDisk::NotAFile },
        ManifestEntry { path: "/out/locked.png".to_string(), on_disk: OnDisk::Unreadable },
        ManifestEntry { path: "/out/gone.png".to_string(), on_disk: OnDisk::Missing },
    ];
    let r = package(&meta(), &entries, &Vec::new(), &Vec::new());
    assert_eq!(r.err(), Some(PackageError::UnreadableFile { index: 1 }));
}

#[test]
fn faults_are_told_with_the_path() {
    let missing = PackageError::MissingFile { index: 3 };
    let unreadable = PackageError::UnreadableFile { index: 4 };
    let nameless = PackageError::InvalidIdentity { index: 5 };
    assert_eq!(missing.index(), 3);
    assert_eq!(unreadable.index(), 4);
    assert_eq!(nameless.index(), 5);
    assert_eq!(missing.message("/out/a"), "Failed to get metadata for: /out/a");
    assert_eq!(unreadable.message("/out/b"), "Failed to read file: /out/b");
    assert_eq!(nameless.message("/"), "Failed to extract file name: /");
}

#[test]
fn package_fails_on_a_file_without_a_name() {
    let entries = vec![file("/out/", b"abc"), file("/", b"abc")];
    let r = package(&meta(), &entries, &Vec::new(), &Vec::new());
    assert_eq!(r.err(), Some(PackageError::InvalidIdentity { index: 1 }));
}
