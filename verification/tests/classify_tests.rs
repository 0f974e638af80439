use netforensics::carve::FileKind;
use netforensics::classify::{
    bytes_contain, bytes_match_at, classify, extract_request_paths, find_body_start,
    has_http2_preface, http_body, is_http1_text, is_valid_file, listed_requests,
    needs_http2_engine, path_is_listed, read_line_resource, space, Classification,
};

fn none() -> Vec<String> {
    Vec::new()
}

fn strings(items: &[&str]) -> Vec<String> {
    items.iter().map(|s| s.to_string()).collect()
}

#[test]
fn listed_extensions_are_valid() {
    let all = [
        "html", "htm", "php", "asp", "aspx", "jsp", "js", "css", "json", "xml", "png", "jpg",
        "jpeg", "gif", "bmp", "svg", "zip", "rar", "7z", "tar", "gz", "bz2", "exe", "dll", "bin",
        "sh", "bat", "cmd", "pdf", "doc", "docx", "xls", "xlsx", "ppt", "pptx", "txt", "log",
        "csv", "mp3", "wav", "mp4", "avi", "mkv", "mov",
    ];
    assert_eq!(all.len(), 44);
    for ext in all.iter() {
        assert!(is_valid_file(&format!("/files/name.{}", ext)));
    }
}

#[test]
fn other_paths_are_not_valid() {
    assert!(is_valid_file("/report.pdf"));
    assert!(!is_valid_file("/index"));
    assert!(!is_valid_file(""));
    assert!(!is_valid_file("/"));
    assert!(!is_valid_file("/report.PDF"));
    assert!(!is_valid_file("/report.pdf?download=1"));
    assert!(!is_valid_file("/report.pdfx"));
    assert!(!is_valid_file("pdf"));
    assert!(is_valid_file(".pdf"));
    assert!(is_valid_file("/a?file=x.zip"));
    assert!(is_valid_file("/päth/ü.txt"));
}

#[test]
fn path_is_listed_on_characters() {
    let yes: Vec<char> = "/a/b.tar.gz".chars().collect();
    let no: Vec<char> = "/a/b.tar.gz/".chars().collect();
    assert!(path_is_listed(&yes));
    assert!(!path_is_listed(&no));
}

#[test]
fn http_path_allow_list() {
    assert_eq!(extract_request_paths(b"GET /report.pdf HTTP/1.1"), strings(&["/report.pdf"]));
    assert_eq!(extract_request_paths(b"GET /index HTTP/1.1"), none());
}

#[test]
fn every_method_is_read() {
    let text = b"GET /a.png HTTP/1.1\r\nPOST /b.php HTTP/1.1\r\nPUT /c.txt HTTP/1.1\r\n\
                DELETE /d.log HTTP/1.1\r\nHEAD /e.css HTTP/1.1\r\nOPTIONS /f.js HTTP/1.1\r\n";
    assert_eq!(
        extract_request_paths(text),
        strings(&["/a.png", "/b.php", "/c.txt", "/d.log", "/e.css"])
    );
}

#[test]
fn request_lines_must_begin_the_line() {
    assert_eq!(extract_request_paths(b" GET /a.png HTTP/1.1"), none());
    assert_eq!(extract_request_paths(b"get /a.png HTTP/1.1"), none());
    assert_eq!(extract_request_paths(b"GET/a.png HTTP/1.1"), none());
    assert_eq!(extract_request_paths(b"X\nGET /a.png HTTP/1.1"), strings(&["/a.png"]));
    assert_eq!(extract_request_paths(b"Referer: GET /a.png\n"), none());
}

#[test]
fn the_path_is_the_second_word() {
    assert_eq!(extract_request_paths(b"GET    /a.png   HTTP/1.1"), strings(&["/a.png"]));
    assert_eq!(extract_request_paths(b"GET \t/a.png\tHTTP/1.1"), strings(&["/a.png"]));
    assert_eq!(extract_request_paths(b"GET /a.png"), strings(&["/a.png"]));
    assert_eq!(extract_request_paths(b"GET /a.png\r"), strings(&["/a.png"]));
    assert_eq!(extract_request_paths(b"GET "), none());
    assert_eq!(extract_request_paths(b"GET \r\n"), none());
    assert_eq!(extract_request_paths(b"GET /a b.png HTTP/1.1"), none());
    assert_eq!(extract_request_paths(b"GET /a\x0Bb.png HTTP/1.1"), none());
    assert_eq!(
        extract_request_paths("GET /a\u{2003}b.png HTTP/1.1".as_bytes()),
        strings(&["/a\u{2003}b.png"])
    );
    assert_eq!(
        extract_request_paths("GET /päth/ü.txt HTTP/1.1".as_bytes()),
        strings(&["/päth/ü.txt"])
    );
}

#[test]
fn each_path_is_reported_once_in_first_seen_order() {
    let text = b"GET /b.png HTTP/1.1\nGET /a.png HTTP/1.1\nGET /b.png HTTP/1.1\n";
    assert_eq!(extract_request_paths(text), strings(&["/b.png", "/a.png"]));
    assert_eq!(extract_request_paths(b""), none());
    assert_eq!(extract_request_paths(b"\n\n\n"), none());
}

#[test]
fn white_space_is_space_and_the_controls_from_tab_to_return() {
    let mut b = 0u8;
    loop {
        assert_eq!(space(b), b == b' ' || (9..=13).contains(&b));
        if b == u8::MAX {
            break;
        }
        b += 1;
    }
}

#[test]
fn a_request_line_gives_its_resource() {
    assert_eq!(read_line_resource(b"GET /report.pdf HTTP/1.1\r"), Some("/report.pdf".to_string()));
    assert_eq!(read_line_resource(b"GET /index HTTP/1.1\r"), None);
    assert_eq!(read_line_resource(b"TRACE /report.pdf HTTP/1.1"), None);
    assert_eq!(read_line_resource(b"HEAD"), None);
    assert_eq!(read_line_resource(b""), None);
}

#[test]
fn a_path_that_is_no_valid_text_is_read_with_replacements() {
    assert_eq!(
        read_line_resource(b"GET /a\xFFb.zip HTTP/1.1"),
        Some("/a\u{FFFD}b.zip".to_string())
    );
}

#[test]
fn bytes_are_searched_in_place_and_anywhere() {
    assert!(bytes_match_at(b"hello world", 6, b"world"));
    assert!(bytes_match_at(b"hello", 5, b""));
    assert!(!bytes_match_at(b"hello", 6, b""));
    assert!(!bytes_match_at(b"hello world", 7, b"world"));
    assert!(bytes_contain(b"xx HTTP/1.1", b"HTTP/1.1"));
    assert!(bytes_contain(b"abc", b""));
    assert!(bytes_contain(b"", b""));
    assert!(!bytes_contain(b"ab", b"abc"));
    assert!(!bytes_contain(b"HTTP/1.", b"HTTP/1.1"));
}

#[test]
fn http1_is_named_by_its_version() {
    assert!(is_http1_text(b"GET / HTTP/1.1"));
    assert!(is_http1_text(b"HTTP/1.0 200 OK"));
    assert!(!is_http1_text(b"PRI * HTTP/2.0"));
    assert!(is_http1_text(b"xx HTTP/1.1 yy"));
    assert!(is_http1_text(b"xx HTTP/1.1 \xFF"));
    assert!(is_http1_text(b"\x80\xFFHTTP/1.0"));
    assert!(!is_http1_text(b"HTTP/1."));
    assert!(!is_http1_text(b"http/1.1"));
    assert!(!is_http1_text(b""));
}

#[test]
fn classifies_http_text() {
    let stream = b"GET /report.pdf HTTP/1.1\r\nHost: example.com\r\n\r\n";
    match classify(stream, &none()) {
        Classification::HttpText { paths } => assert_eq!(paths, strings(&["/report.pdf"])),
        _ => panic!("not HTTP text"),
    }
    match classify(b"GET /index HTTP/1.1\r\n\r\n", &none()) {
        Classification::HttpText { paths } => assert!(paths.is_empty()),
        _ => panic!("not HTTP text"),
    }
}

#[test]
fn http_text_without_a_version_is_not_recognized() {
    assert!(matches!(classify(b"GET /report.pdf\r\n", &none()), Classification::Unrecognized));
}

#[test]
fn http_text_may_carry_bytes_that_are_no_text() {
    let mut stream = b"GET /report.pdf HTTP/1.1\r\n\r\n".to_vec();
    stream.extend_from_slice(&[0xFF, 0x00, 0x80, 0xC3, 0x28, 0xFE]);
    match classify(&stream, &none()) {
        Classification::HttpText { paths } => assert_eq!(paths, strings(&["/report.pdf"])),
        _ => panic!("not HTTP text"),
    }
}

#[test]
fn request_lines_are_read_between_bytes_that_are_no_text() {
    let mut stream = vec![0xFF, 0xFE, b'\n'];
    stream.extend_from_slice(b"GET /a.png HTTP/1.1\r\n");
    stream.extend_from_slice(&[0x80, 0x81, b'\n']);
    stream.extend_from_slice(b"POST /b.zip HTTP/1.0\r\n\r\n");
    stream.extend_from_slice(&[0xC0, 0xAF]);
    assert_eq!(extract_request_paths(&stream), strings(&["/a.png", "/b.zip"]));
}

#[test]
fn a_file_that_names_http1_is_http_text() {
    let mut stream = vec![0xFF, 0xD8, 0xFF, 0xE0];
    stream.extend_from_slice(b" HTTP/1.1 ");
    stream.extend_from_slice(&[0xFF, 0xD9]);
    match classify(&stream, &none()) {
        Classification::HttpText { paths } => assert!(paths.is_empty()),
        _ => panic!("not HTTP text"),
    }
}

#[test]
fn jpeg_carve_boundary() {
    let whole = [0xFF, 0xD8, 0xFF, 0xE0, 0, 0x10, 0x4A, 0x46, 0xFF, 0xD9];
    match classify(&whole, &none()) {
        Classification::Carvable { kind, start, end } => {
            assert_eq!(kind, FileKind::Jpeg);
            assert_eq!(kind.extension(), "jpg");
            assert_eq!((start, end), (0, whole.len()));
        },
        _ => panic!("not carvable"),
    }
    let open = [0xFF, 0xD8, 0xFF, 0xE0, 0, 0x10, 0x4A, 0x46];
    assert!(matches!(classify(&open, &none()), Classification::Unrecognized));
}

#[test]
fn classifies_other_signatures() {
    match classify(b"%PDF-1.4 body", &none()) {
        Classification::Carvable { kind, start, end } => {
            assert_eq!(kind, FileKind::Pdf);
            assert_eq!((start, end), (0, 13));
        },
        _ => panic!("not carvable"),
    }
    assert!(matches!(classify(b"plain bytes", &none()), Classification::Unrecognized));
    assert!(matches!(classify(b"", &none()), Classification::Unrecognized));
}

#[test]
fn http_text_comes_before_signatures() {
    match classify(b"TEXT\nGET /a.png HTTP/1.1\n", &none()) {
        Classification::HttpText { paths } => assert_eq!(paths, strings(&["/a.png"])),
        _ => panic!("not HTTP text"),
    }
}

#[test]
fn http2_preface_is_recognized() {
    let mut stream = b"PRI * HTTP/2.0\r\n\r\nSM\r\n\r\n".to_vec();
    stream.extend_from_slice(&[0, 0, 0, 4, 0, 0, 0, 0, 0]);
    assert!(has_http2_preface(&stream));
    assert!(needs_http2_engine(&stream));
    assert!(!has_http2_preface(b"PRI * HTTP/2."));
    assert!(!has_http2_preface(b" PRI * HTTP/2.0"));
    assert!(!needs_http2_engine(b"GET / HTTP/1.1"));
    assert!(!needs_http2_engine(b"PRI * HTTP/2.0 and HTTP/1.1"));
    let requests = strings(&["/a.png", "/index", "/b.zip?x=1", "/a.png", "/c.mp4"]);
    match classify(&stream, &requests) {
        Classification::Http2Binary { paths } => assert_eq!(paths, strings(&["/a.png", "/c.mp4"])),
        _ => panic!("not HTTP/2"),
    }
    match classify(&stream, &none()) {
        Classification::Http2Binary { paths } => assert!(paths.is_empty()),
        _ => panic!("not HTTP/2"),
    }
}

#[test]
fn http2_paths_are_ignored_for_other_streams() {
    let requests = strings(&["/a.png"]);
    assert!(matches!(classify(b"plain", &requests), Classification::Unrecognized));
    match classify(b"GET /b.png HTTP/1.1", &requests) {
        Classification::HttpText { paths } => assert_eq!(paths, strings(&["/b.png"])),
        _ => panic!("not HTTP text"),
    }
}

#[test]
fn listed_requests_filters_and_deduplicates() {
    assert_eq!(listed_requests(&strings(&["/x", "/y.gz", "/y.gz", "/z.7z"])), strings(&["/y.gz", "/z.7z"]));
    assert_eq!(listed_requests(&none()), none());
}

#[test]
fn body_begins_after_the_first_empty_line() {
    assert_eq!(http_body(b"GET /f.zip HTTP/1.1\r\nHost: h\r\n\r\nPK\x03\x04"), b"PK\x03\x04".to_vec());
    assert_eq!(http_body(b"GET /f.zip HTTP/1.1\n\nPK\x03\x04"), b"PK\x03\x04".to_vec());
    assert_eq!(find_body_start(b"a\r\n\r\nb"), 5);
    assert_eq!(find_body_start(b"a\n\nb\n\nc"), 3);
    assert_eq!(find_body_start(b"\n\n"), 2);
    assert_eq!(find_body_start(b"\r\n\r\n"), 4);
}

#[test]
fn without_an_empty_line_the_body_begins_after_the_first_line() {
    assert_eq!(http_body(b"GET /f.zip HTTP/1.1\r\nPK\x03\x04data"), b"PK\x03\x04data".to_vec());
    assert_eq!(find_body_start(b"one\ntwo\nthree"), 4);
    assert_eq!(find_body_start(b"one\n"), 4);
    assert_eq!(find_body_start(b"a\n\r"), 2);
}

#[test]
fn without_a_line_feed_there_is_no_body() {
    assert_eq!(http_body(b"GET /f.zip HTTP/1.1"), Vec::<u8>::new());
    assert_eq!(find_body_start(b""), 0);
    assert_eq!(find_body_start(b"abc\r"), 4);
}
