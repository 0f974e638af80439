use netforensics::analysis::Analyzer;
use netforensics::store::manifest;

fn ethernet(ethertype: u16, payload: &[u8]) -> Vec<u8> {
    let mut f = vec![0x02, 0, 0, 0, 0, 0x01, 0x02, 0, 0, 0, 0, 0x02];
    f.extend_from_slice(&ethertype.to_be_bytes());
    f.extend_from_slice(payload);
    f
}

fn ipv4(protocol: u8, src: [u8; 4], dst: [u8; 4], payload: &[u8]) -> Vec<u8> {
    let total = (20 + payload.len()) as u16;
    let mut p = vec![0x45, 0];
    p.extend_from_slice(&total.to_be_bytes());
    p.extend_from_slice(&[0, 0, 0, 0, 64, protocol, 0, 0]);
    p.extend_from_slice(&src);
    p.extend_from_slice(&dst);
    p.extend_from_slice(payload);
    p
}

fn tcp_frame(src_port: u16, seq: u32, payload: &[u8]) -> Vec<u8> {
    let mut s = Vec::new();
    s.extend_from_slice(&src_port.to_be_bytes());
    s.extend_from_slice(&80u16.to_be_bytes());
    s.extend_from_slice(&seq.to_be_bytes());
    s.extend_from_slice(&[0, 0, 0, 0, 0x50, 0x18, 0xFF, 0xFF, 0, 0, 0, 0]);
    s.extend_from_slice(payload);
    ethernet(0x0800, &ipv4(6, [10, 0, 0, 1], [10, 0, 0, 2], &s))
}

fn udp_frame(src_port: u16, payload: &[u8]) -> Vec<u8> {
    let mut d = Vec::new();
    d.extend_from_slice(&src_port.to_be_bytes());
    d.extend_from_slice(&53u16.to_be_bytes());
    d.extend_from_slice(&((8 + payload.len()) as u16).to_be_bytes());
    d.extend_from_slice(&[0, 0]);
    d.extend_from_slice(payload);
    ethernet(0x0800, &ipv4(17, [10, 0, 0, 1], [10, 0, 0, 2], &d))
}

fn analyze(frames: &[Vec<u8>]) -> Analyzer {
    let mut a = Analyzer::new();
    for frame in frames {
        a.ingest_frame(frame);
    }
    a.close();
    assert!(!a.advance());
    a
}

#[test]
fn end_to_end_scenario() {
    let frames = vec![
        tcp_frame(40000, 1000, b"GET /file.zip HTTP/1.1\r\n"),
        tcp_frame(40000, 1024, b"PK\x03\x04zip body"),
    ];
    let a = analyze(&frames);
    let plan = a.export_plan();
    assert_eq!(plan.len(), 1);
    assert_eq!(plan[0].file_name, "file.zip");
    assert!(plan[0].content.starts_with(b"PK\x03\x04"));
    assert_eq!(plan[0].content, b"PK\x03\x04zip body".to_vec());
    let paths = manifest(&plan, "/cases/1/extracted_files");
    assert_eq!(paths, vec!["/cases/1/extracted_files/file.zip"]);
}

#[test]
fn end_to_end_scenario_with_a_binary_body() {
    let mut body = b"PK\x03\x04".to_vec();
    body.extend_from_slice(&[0x14, 0x00, 0x80, 0xFF, 0xFE, 0xC3, 0x28, 0x0A, 0x0A, 0x90, 0xE2]);
    let frames = vec![
        tcp_frame(40000, 1000, b"GET /file.zip HTTP/1.1\r\n\r\n"),
        tcp_frame(40000, 1026, &body),
    ];
    let a = analyze(&frames);
    let plan = a.export_plan();
    assert_eq!(plan.len(), 1);
    assert_eq!(plan[0].file_name, "file.zip");
    assert!(plan[0].content.starts_with(b"PK\x03\x04"));
    assert_eq!(plan[0].content, body);
    assert_eq!(manifest(&plan, "/cases/1/extracted_files"), vec!["/cases/1/extracted_files/file.zip"]);
}

#[test]
fn binary_bodies_of_one_resource_are_stored_once_with_the_later_content() {
    let mut first = b"GET /img.png HTTP/1.1\r\n\r\n".to_vec();
    first.extend_from_slice(&[0x89, 0x50, 0x4E, 0x47, 0x01]);
    let mut second = b"GET /img.png HTTP/1.1\r\n\r\n".to_vec();
    second.extend_from_slice(&[0x89, 0x50, 0x4E, 0x47, 0x02, 0xFF]);
    let frames = vec![tcp_frame(40000, 1, &first), tcp_frame(40001, 1, &second)];
    let plan = analyze(&frames).export_plan();
    assert_eq!(plan.len(), 1);
    assert_eq!(plan[0].file_name, "img.png");
    assert_eq!(plan[0].content, vec![0x89, 0x50, 0x4E, 0x47, 0x02, 0xFF]);
}

#[test]
fn end_to_end_with_headers_and_segments_out_of_order() {
    let frames = vec![
        tcp_frame(40000, 1024, b"Host: files.example.com\r\n\r\n"),
        tcp_frame(40000, 1052, b"PK\x03\x04zip body"),
        tcp_frame(40000, 1000, b"GET /file.zip HTTP/1.1\r\n"),
    ];
    let plan = analyze(&frames).export_plan();
    assert_eq!(plan.len(), 1);
    assert_eq!(plan[0].file_name, "file.zip");
    assert_eq!(plan[0].content, b"PK\x03\x04zip body".to_vec());
}

#[test]
fn a_segment_that_opens_a_flow_with_a_signature_is_carved_at_once() {
    let frames = vec![
        tcp_frame(40000, 1052, b"PK\x03\x04zip body"),
        tcp_frame(40000, 1000, b"GET /file.zip HTTP/1.1\r\n\r\n"),
    ];
    let plan = analyze(&frames).export_plan();
    assert_eq!(plan.len(), 2);
    assert_eq!(plan[0].file_name, "carved_0.zip");
    assert_eq!(plan[0].content, b"PK\x03\x04zip body".to_vec());
    assert_eq!(plan[1].file_name, "file.zip");
    assert_eq!(plan[1].content, Vec::<u8>::new());
}

#[test]
fn a_path_without_a_listed_extension_yields_nothing() {
    let plan = analyze(&[tcp_frame(40000, 1, b"GET /index HTTP/1.1\r\n\r\n")]).export_plan();
    assert!(plan.is_empty());
}

#[test]
fn the_same_resource_in_two_flows_is_stored_once_with_the_later_content() {
    let frames = vec![
        tcp_frame(40000, 1, b"GET /img.png HTTP/1.1\r\n\r\nfirst"),
        tcp_frame(40001, 1, b"GET /img.png HTTP/1.1\r\n\r\nsecond"),
    ];
    let plan = analyze(&frames).export_plan();
    assert_eq!(plan.len(), 1);
    assert_eq!(plan[0].file_name, "img.png");
    assert_eq!(plan[0].content, b"second".to_vec());
}

#[test]
fn a_complete_jpeg_is_carved_when_its_end_arrives() {
    let mut a = Analyzer::new();
    a.ingest_frame(&tcp_frame(40000, 10, &[0xFF, 0xD8, 0xFF, 0xE0, 1, 2]));
    assert!(a.export_plan().is_empty());
    a.ingest_frame(&tcp_frame(40000, 20, &[3, 4, 0xFF, 0xD9]));
    let plan = a.export_plan();
    assert_eq!(plan.len(), 1);
    assert_eq!(plan[0].file_name, "carved_0.jpg");
    assert_eq!(plan[0].content, vec![0xFF, 0xD8, 0xFF, 0xE0, 1, 2, 3, 4, 0xFF, 0xD9]);
    a.ingest_frame(&tcp_frame(40000, 30, b"%PDF-1.4"));
    a.close();
    assert!(!a.advance());
    let plan = a.export_plan();
    assert_eq!(plan.len(), 2);
    assert_eq!(plan[1].file_name, "carved_1.pdf");
    assert_eq!(plan[1].content, b"%PDF-1.4".to_vec());
}

#[test]
fn a_jpeg_that_names_http1_is_carved_when_its_end_arrives() {
    let mut picture = vec![0xFF, 0xD8, 0xFF, 0xE0];
    picture.extend_from_slice(b" made with HTTP/1.1 ");
    picture.extend_from_slice(&[0xFF, 0xD9]);
    let plan = analyze(&[tcp_frame(40000, 10, &picture)]).export_plan();
    assert_eq!(plan.len(), 1);
    assert_eq!(plan[0].file_name, "carved_0.jpg");
    assert_eq!(plan[0].content, picture);
}

#[test]
fn an_unfinished_jpeg_is_not_carved() {
    let plan = analyze(&[tcp_frame(40000, 10, &[0xFF, 0xD8, 0xFF, 0xE0, 1, 2])]).export_plan();
    assert!(plan.is_empty());
}

#[test]
fn datagrams_are_carved_too() {
    let plan = analyze(&[udp_frame(5000, b"GIF87a image")]).export_plan();
    assert_eq!(plan.len(), 1);
    assert_eq!(plan[0].file_name, "carved_0.gif");
    assert_eq!(plan[0].content, b"GIF87a image".to_vec());
}

#[test]
fn frames_that_do_not_decode_are_skipped() {
    let frames = vec![
        vec![0u8; 5],
        ethernet(0x0806, &[0u8; 28]),
        tcp_frame(40000, 1, b"GET /a.css HTTP/1.0\n\nbody{}"),
    ];
    let plan = analyze(&frames).export_plan();
    assert_eq!(plan.len(), 1);
    assert_eq!(plan[0].file_name, "a.css");
    assert_eq!(plan[0].content, b"body{}".to_vec());
}

#[test]
fn an_http2_stream_waits_for_the_engine() {
    let mut preface = b"PRI * HTTP/2.0\r\n\r\nSM\r\n\r\n".to_vec();
    preface.extend_from_slice(&[0, 0, 0, 4, 0, 0, 0, 0, 0, 0x82, 0x87]);
    let frames = vec![
        tcp_frame(40000, 1, b"GET /before.txt HTTP/1.1\r\n\r\nB"),
        tcp_frame(40001, 1, &preface),
        tcp_frame(40002, 1, b"GET /after.txt HTTP/1.1\r\n\r\nA"),
    ];
    let mut a = Analyzer::new();
    for frame in frames.iter() {
        a.ingest_frame(frame);
    }
    assert!(a.waiting_stream().is_none());
    assert!(!a.resolve_http2(&Vec::new()));
    a.close();
    assert!(a.advance());
    assert!(a.advance());
    assert_eq!(a.waiting_stream().unwrap(), &preface);
    assert_eq!(a.export_plan().len(), 1);
    let requests = vec!["/style.css".to_string(), "/".to_string(), "/app.js".to_string()];
    assert!(a.resolve_http2(&requests));
    assert!(a.waiting_stream().is_none());
    assert!(!a.advance());
    assert!(!a.resolve_http2(&requests));
    let plan = a.export_plan();
    let names: Vec<&str> = plan.iter().map(|item| item.file_name.as_str()).collect();
    assert_eq!(names, vec!["before.txt", "style.css", "app.js", "after.txt"]);
    assert_eq!(plan[0].content, b"B".to_vec());
    assert_eq!(plan[1].content, preface);
    assert_eq!(plan[2].content, preface);
    assert_eq!(plan[3].content, b"A".to_vec());
}

#[test]
fn an_empty_capture_yields_nothing() {
    let a = analyze(&[]);
    assert!(a.export_plan().is_empty());
    assert!(a.waiting_stream().is_none());
}
