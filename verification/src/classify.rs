//! Content classification: telling HTTP/1.x text, HTTP/2 and raw carvable
//! streams apart, and reading request paths out of HTTP text. Streams are read
//! as bytes: a message may carry a body that is no text.

use crate::carve::{
    bytes_start_with, carve, carved_kind, closing, lemma_jpeg_carved, opening, FileKind,
};
use crate::text::{
    chars_of, ends_with, insert_unique, lemma_add_unique_concat, lemma_unique_first, stream_text,
    text_of, texts, unique,
};
use vstd::prelude::*;
use vstd::slice::slice_subrange;
use vstd::utf8::{encode_utf8, is_ascii_chars_encode_utf8};

verus! {

/// The file suffixes that make a request path worth extracting.
pub open spec fn listed_extensions() -> Seq<Seq<char>> {
    seq![
        ".html"@,
        ".htm"@,
        ".php"@,
        ".asp"@,
        ".aspx"@,
        ".jsp"@,
        ".js"@,
        ".css"@,
        ".json"@,
        ".xml"@,
        ".png"@,
        ".jpg"@,
        ".jpeg"@,
        ".gif"@,
        ".bmp"@,
        ".svg"@,
        ".zip"@,
        ".rar"@,
        ".7z"@,
        ".tar"@,
        ".gz"@,
        ".bz2"@,
        ".exe"@,
        ".dll"@,
        ".bin"@,
        ".sh"@,
        ".bat"@,
        ".cmd"@,
        ".pdf"@,
        ".doc"@,
        ".docx"@,
        ".xls"@,
        ".xlsx"@,
        ".ppt"@,
        ".pptx"@,
        ".txt"@,
        ".log"@,
        ".csv"@,
        ".mp3"@,
        ".wav"@,
        ".mp4"@,
        ".avi"@,
        ".mkv"@,
        ".mov"@,
    ]
}

/// `path` ends with one of the listed extensions.
pub open spec fn has_listed_extension(path: Seq<char>) -> bool {
    exists|i: int|
        0 <= i < listed_extensions().len() && (#[trigger] listed_extensions()[i]).is_suffix_of(
            path,
        )
}

/// The listed extensions, in the order of `listed_extensions`.
fn extension_table() -> (table: Vec<&'static str>)
    ensures
        table@.len() == listed_extensions().len(),
        forall|i: int| 0 <= i < table@.len() ==> (#[trigger] table@[i])@ == listed_extensions()[i],
{
    vec![
        ".html", ".htm", ".php", ".asp", ".aspx", ".jsp", ".js", ".css", ".json", ".xml", ".png",
        ".jpg", ".jpeg", ".gif", ".bmp", ".svg", ".zip", ".rar", ".7z", ".tar", ".gz", ".bz2",
        ".exe", ".dll", ".bin", ".sh", ".bat", ".cmd", ".pdf", ".doc", ".docx", ".xls", ".xlsx",
        ".ppt", ".pptx", ".txt", ".log", ".csv", ".mp3", ".wav", ".mp4", ".avi", ".mkv", ".mov",
    ]
}

/// Tests whether the characters of a path end with a listed extension.
pub fn path_is_listed(path: &[char]) -> (r: bool)
    ensures
        r == has_listed_extension(path@),
{
    let table = extension_table();
    let mut i: usize = 0;
    while i < table.len()
        invariant
            i <= table@.len(),
            table@.len() == listed_extensions().len(),
            forall|j: int|
                0 <= j < table@.len() ==> (#[trigger] table@[j])@ == listed_extensions()[j],
            forall|j: int| 0 <= j < i ==> !(#[trigger] listed_extensions()[j]).is_suffix_of(path@),
        decreases table@.len() - i,
    {
        if ends_with(path, table[i]) {
            assert(listed_extensions()[i as int].is_suffix_of(path@));
            return true;
        }
        i += 1;
    }
    false
}

/// Tests whether a resource path names a file worth extracting: whether it ends
/// with one of the listed extensions.
pub fn is_valid_file(file_path: &str) -> (r: bool)
    ensures
        r == has_listed_extension(file_path@),
{
    let path = chars_of(file_path);
    path_is_listed(path.as_slice())
}

/// `b` is white space: a space, or one of the control characters from the
/// horizontal tab to the carriage return.
pub open spec fn is_space(b: u8) -> bool {
    (0x09 <= b <= 0x0D) || b == 0x20
}

/// Tests whether `b` is white space.
pub fn space(b: u8) -> (r: bool)
    ensures
        r == is_space(b),
{
    (0x09 <= b && b <= 0x0D) || b == 0x20
}

/// The first index at or after `from` that does not hold white space.
pub open spec fn skip_spaces(s: Seq<u8>, from: int) -> int
    decreases s.len() - from,
{
    if 0 <= from < s.len() && is_space(s[from]) {
        skip_spaces(s, from + 1)
    } else {
        from
    }
}

/// The first index at or after `from` that holds white space, or the length.
pub open spec fn skip_word(s: Seq<u8>, from: int) -> int
    decreases s.len() - from,
{
    if 0 <= from < s.len() && !is_space(s[from]) {
        skip_word(s, from + 1)
    } else {
        from
    }
}

/// The second of the words that white space divides `line` into, if there are two.
pub open spec fn second_word(line: Seq<u8>) -> Option<Seq<u8>> {
    let first = skip_spaces(line, 0);
    let gap = skip_word(line, first);
    let second = skip_spaces(line, gap);
    if second < line.len() {
        Some(line.subrange(second, skip_word(line, second)))
    } else {
        None
    }
}

/// `line` begins with a request method and a space.
pub open spec fn is_request_line(line: Seq<u8>) -> bool {
    ||| encode_utf8("GET "@).is_prefix_of(line)
    ||| encode_utf8("POST "@).is_prefix_of(line)
    ||| encode_utf8("PUT "@).is_prefix_of(line)
    ||| encode_utf8("DELETE "@).is_prefix_of(line)
    ||| encode_utf8("HEAD "@).is_prefix_of(line)
}

/// The resource that `line` asks for: the text of the second word of a request
/// line, where it ends with a listed extension.
pub open spec fn line_resource(line: Seq<u8>) -> Option<Seq<char>> {
    if is_request_line(line) {
        match second_word(line) {
            Some(word) => if has_listed_extension(stream_text(word)) {
                Some(stream_text(word))
            } else {
                None
            },
            None => None,
        }
    } else {
        None
    }
}

/// The number of bytes from `from` up to the next line feed or the end.
pub open spec fn line_len(stream: Seq<u8>, from: int) -> nat
    decreases stream.len() - from,
{
    if from < 0 || from >= stream.len() || stream[from] == 10 {
        0
    } else {
        1 + line_len(stream, from + 1)
    }
}

/// The resources asked for by the lines of `stream` that begin at or after
/// `from`, which is where a line begins; in the order of the lines.
pub open spec fn paths_from(stream: Seq<u8>, from: int) -> Seq<Seq<char>>
    decreases stream.len() - from,
{
    if from < 0 || from >= stream.len() {
        Seq::empty()
    } else {
        let end = from + line_len(stream, from);
        let here = match line_resource(stream.subrange(from, end)) {
            Some(path) => seq![path],
            None => Seq::empty(),
        };
        if end < stream.len() {
            here + paths_from(stream, end + 1)
        } else {
            here
        }
    }
}

/// The resources asked for by the request lines of `stream`, in the order of
/// the lines. Lines end at a line feed; what else the stream holds, text or
/// not, does not matter.
pub open spec fn request_paths(stream: Seq<u8>) -> Seq<Seq<char>> {
    paths_from(stream, 0)
}

/// The first index at or after `from` that does not hold white space.
fn spaces_end(s: &[u8], from: usize) -> (r: usize)
    requires
        from <= s@.len(),
    ensures
        r == skip_spaces(s@, from as int),
        from <= r <= s@.len(),
{
    let mut i: usize = from;
    while i < s.len() && space(s[i])
        invariant
            from <= i <= s@.len(),
            skip_spaces(s@, from as int) == skip_spaces(s@, i as int),
        decreases s@.len() - i,
    {
        i += 1;
    }
    i
}

/// The first index at or after `from` that holds white space, or the length.
fn word_end(s: &[u8], from: usize) -> (r: usize)
    requires
        from <= s@.len(),
    ensures
        r == skip_word(s@, from as int),
        from <= r <= s@.len(),
{
    let mut i: usize = from;
    while i < s.len() && !space(s[i])
        invariant
            from <= i <= s@.len(),
            skip_word(s@, from as int) == skip_word(s@, i as int),
        decreases s@.len() - i,
    {
        i += 1;
    }
    i
}

/// Where the second word of `line` stands, if there are two words.
fn second_word_range(line: &[u8]) -> (r: Option<(usize, usize)>)
    ensures
        match r {
            Some((a, b)) => a <= b <= line@.len() && second_word(line@) == Some(
                line@.subrange(a as int, b as int),
            ),
            None => second_word(line@) is None,
        },
{
    let first = spaces_end(line, 0);
    let gap = word_end(line, first);
    let second = spaces_end(line, gap);
    if second < line.len() {
        Some((second, word_end(line, second)))
    } else {
        None
    }
}

/// Tests whether `line` begins with a request method and a space.
fn begins_request(line: &[u8]) -> (r: bool)
    ensures
        r == is_request_line(line@),
{
    bytes_start_with(line, "GET ".as_bytes()) || bytes_start_with(line, "POST ".as_bytes())
        || bytes_start_with(line, "PUT ".as_bytes()) || bytes_start_with(
        line,
        "DELETE ".as_bytes(),
    ) || bytes_start_with(line, "HEAD ".as_bytes())
}

/// Reads the resource that `line` asks for, if it asks for one.
pub fn read_line_resource(line: &[u8]) -> (r: Option<String>)
    ensures
        match r {
            Some(path) => line_resource(line@) == Some(path@),
            None => line_resource(line@) is None,
        },
{
    if !begins_request(line) {
        return None;
    }
    match second_word_range(line) {
        Some((a, b)) => {
            let path = text_of(slice_subrange(line, a, b));
            if is_valid_file(path.as_str()) {
                Some(path)
            } else {
                None
            }
        },
        None => None,
    }
}

/// The end of the line that begins at `from`.
fn line_end(stream: &[u8], from: usize) -> (r: usize)
    requires
        from <= stream@.len(),
    ensures
        r == from + line_len(stream@, from as int),
        from <= r <= stream@.len(),
{
    let mut i: usize = from;
    while i < stream.len() && stream[i] != 10
        invariant
            from <= i <= stream@.len(),
            from + line_len(stream@, from as int) == i + line_len(stream@, i as int),
        decreases stream@.len() - i,
    {
        i += 1;
    }
    i
}

/// Reads the resources that the request lines of `stream` ask for, each once,
/// in the order in which they first occur.
pub fn extract_request_paths(stream: &[u8]) -> (paths: Vec<String>)
    ensures
        texts(paths@) == unique(request_paths(stream@)),
{
    let mut paths: Vec<String> = Vec::new();
    let ghost mut seen: Seq<Seq<char>> = Seq::empty();
    let mut from: usize = 0;
    assert(texts(paths@) =~= unique(seen));
    while from < stream.len()
        invariant
            from <= stream@.len(),
            texts(paths@) == unique(seen),
            seen + paths_from(stream@, from as int) == request_paths(stream@),
        decreases stream@.len() - from,
    {
        let end = line_end(stream, from);
        let line = slice_subrange(stream, from, end);
        let next: usize = if end < stream.len() {
            end + 1
        } else {
            end
        };
        assert(paths_from(stream@, stream@.len() as int) =~= Seq::<Seq<char>>::empty());
        match read_line_resource(line) {
            Some(path) => {
                proof {
                    let found = path@;
                    lemma_add_unique_concat(Seq::<Seq<char>>::empty(), seen, seq![found]);
                    assert(seen + seq![found] =~= seen.push(found));
                    assert(seen.push(found) + paths_from(stream@, next as int) =~= seen
                        + paths_from(stream@, from as int));
                    seen = seen.push(found);
                }
                insert_unique(&mut paths, path);
            },
            None => {
                assert(paths_from(stream@, next as int) =~= paths_from(stream@, from as int));
            },
        }
        from = next;
    }
    proof {
        assert(paths_from(stream@, from as int) =~= Seq::<Seq<char>>::empty());
        assert(seen + Seq::<Seq<char>>::empty() =~= seen);
    }
    paths
}

/// `pat` occurs in `stream` starting at index `at`.
pub open spec fn bytes_occur_at(stream: Seq<u8>, pat: Seq<u8>, at: int) -> bool {
    &&& 0 <= at
    &&& at + pat.len() <= stream.len()
    &&& stream.subrange(at, at + pat.len()) == pat
}

/// `pat` occurs somewhere in `stream`.
pub open spec fn bytes_occur(stream: Seq<u8>, pat: Seq<u8>) -> bool {
    exists|at: int| bytes_occur_at(stream, pat, at)
}

/// `stream` is HTTP/1.x text: the bytes of `HTTP/1.1` or of `HTTP/1.0` occur in
/// it. Nothing is asked of its other bytes: the body of a message is often
/// no text at all.
pub open spec fn is_http_text(stream: Seq<u8>) -> bool {
    bytes_occur(stream, encode_utf8("HTTP/1.1"@)) || bytes_occur(stream, encode_utf8("HTTP/1.0"@))
}

/// Tests whether `pat` occurs in `stream` at index `at`.
pub fn bytes_match_at(stream: &[u8], at: usize, pat: &[u8]) -> (r: bool)
    ensures
        r == bytes_occur_at(stream@, pat@, at as int),
{
    if at > stream.len() || pat.len() > stream.len() - at {
        return false;
    }
    let mut i: usize = 0;
    while i < pat.len()
        invariant
            i <= pat.len(),
            at + pat.len() <= stream.len(),
            forall|j: int| 0 <= j < i ==> stream@[at + j] == pat@[j],
        decreases pat.len() - i,
    {
        if stream[at + i] != pat[i] {
            assert(stream@.subrange(at as int, at + pat.len())[i as int] == stream@[at + i]);
            return false;
        }
        i += 1;
    }
    assert(stream@.subrange(at as int, at + pat.len()) =~= pat@);
    true
}

/// Tests whether `pat` occurs anywhere in `stream`.
pub fn bytes_contain(stream: &[u8], pat: &[u8]) -> (r: bool)
    ensures
        r == bytes_occur(stream@, pat@),
{
    if pat.len() > stream.len() {
        return false;
    }
    let last: usize = stream.len() - pat.len();
    let mut at: usize = 0;
    loop
        invariant
            last == stream.len() - pat.len(),
            at <= last,
            forall|k: int| 0 <= k < at ==> !bytes_occur_at(stream@, pat@, k),
        decreases last - at,
    {
        if bytes_match_at(stream, at, pat) {
            return true;
        }
        if at == last {
            return false;
        }
        at += 1;
    }
}

/// The bytes that an HTTP/2 connection opens with: `PRI * HTTP/2.0`.
pub open spec fn http2_preface() -> Seq<u8> {
    seq![
        0x50u8, 0x52u8, 0x49u8, 0x20u8, 0x2Au8, 0x20u8, 0x48u8, 0x54u8, 0x54u8, 0x50u8, 0x2Fu8,
        0x32u8, 0x2Eu8, 0x30u8,
    ]
}

/// `stream` is to be read by an HTTP/2 engine: it is not HTTP/1.x text and
/// opens with the HTTP/2 preface.
pub open spec fn awaits_http2(stream: Seq<u8>) -> bool {
    !is_http_text(stream) && http2_preface().is_prefix_of(stream)
}

/// The test that a path ends with a listed extension, as a predicate.
pub open spec fn listed() -> spec_fn(Seq<char>) -> bool {
    |path: Seq<char>| has_listed_extension(path)
}

/// What a stream has been recognised as.
pub enum Classification {
    /// HTTP/1.x text, with the resources that its request lines ask for.
    HttpText { paths: Vec<String> },
    /// An HTTP/2 connection, with the resources that its requests ask for.
    Http2Binary { paths: Vec<String> },
    /// A file of a known format that fills the byte range from `start` to `end`.
    Carvable { kind: FileKind, start: usize, end: usize },
    /// None of these.
    Unrecognized,
}

/// A `Classification` with its paths as texts.
pub enum ClassificationModel {
    HttpText { paths: Seq<Seq<char>> },
    Http2Binary { paths: Seq<Seq<char>> },
    Carvable { kind: FileKind, start: int, end: int },
    Unrecognized,
}

impl View for Classification {
    type V = ClassificationModel;

    open spec fn view(&self) -> ClassificationModel {
        match self {
            Classification::HttpText { paths } => ClassificationModel::HttpText {
                paths: texts(paths@),
            },
            Classification::Http2Binary { paths } => ClassificationModel::Http2Binary {
                paths: texts(paths@),
            },
            Classification::Carvable { kind, start, end } => ClassificationModel::Carvable {
                kind: *kind,
                start: *start as int,
                end: *end as int,
            },
            Classification::Unrecognized => ClassificationModel::Unrecognized,
        }
    }
}

/// The classification of `stream`, given the request paths that an HTTP/2 engine
/// read from it. The tests are made in a fixed order: HTTP/1.x text, with the
/// listed resources of its request lines; then the HTTP/2 preface, with the
/// listed ones among the engine's paths; then the file signatures. Each path
/// is reported once.
pub open spec fn classification_of(
    stream: Seq<u8>,
    http2_requests: Seq<Seq<char>>,
) -> ClassificationModel {
    if is_http_text(stream) {
        ClassificationModel::HttpText { paths: unique(request_paths(stream)) }
    } else if http2_preface().is_prefix_of(stream) {
        ClassificationModel::Http2Binary { paths: unique(http2_requests.filter(listed())) }
    } else {
        match carved_kind(stream) {
            Some(kind) => ClassificationModel::Carvable {
                kind,
                start: 0,
                end: stream.len() as int,
            },
            None => ClassificationModel::Unrecognized,
        }
    }
}

/// Tests whether `stream` is HTTP/1.x text.
pub fn is_http1_text(stream: &[u8]) -> (r: bool)
    ensures
        r == is_http_text(stream@),
{
    bytes_contain(stream, "HTTP/1.1".as_bytes()) || bytes_contain(stream, "HTTP/1.0".as_bytes())
}

/// Tests whether `stream` opens with the HTTP/2 preface.
pub fn has_http2_preface(stream: &[u8]) -> (r: bool)
    ensures
        r == http2_preface().is_prefix_of(stream@),
{
    let preface: Vec<u8> = vec![
        0x50u8, 0x52u8, 0x49u8, 0x20u8, 0x2Au8, 0x20u8, 0x48u8, 0x54u8, 0x54u8, 0x50u8, 0x2Fu8,
        0x32u8, 0x2Eu8, 0x30u8,
    ];
    assert(preface@ =~= http2_preface());
    bytes_start_with(stream, preface.as_slice())
}

/// Tests whether `stream` has to be handed to an HTTP/2 engine before it can be
/// classified.
pub fn needs_http2_engine(stream: &[u8]) -> (r: bool)
    ensures
        r == awaits_http2(stream@),
{
    !is_http1_text(stream) && has_http2_preface(stream)
}

/// Keeps of the paths that an HTTP/2 engine read those that end with a listed
/// extension, each once, in the order in which they first occur.
pub fn listed_requests(requests: &Vec<String>) -> (paths: Vec<String>)
    ensures
        texts(paths@) == unique(texts(requests@).filter(listed())),
{
    let mut paths: Vec<String> = Vec::new();
    let mut i: usize = 0;
    proof {
        reveal(Seq::filter);
        assert(texts(requests@).take(0) =~= Seq::<Seq<char>>::empty());
        assert(texts(paths@) =~= Seq::<Seq<char>>::empty());
    }
    while i < requests.len()
        invariant
            i <= requests@.len(),
            texts(paths@) == unique(texts(requests@).take(i as int).filter(listed())),
        decreases requests@.len() - i,
    {
        proof {
            reveal(Seq::filter);
            let upto = texts(requests@).take(i + 1);
            assert(upto.drop_last() =~= texts(requests@).take(i as int));
            assert(upto.last() == requests@[i as int]@);
            let kept = texts(requests@).take(i as int).filter(listed());
            lemma_add_unique_concat(Seq::<Seq<char>>::empty(), kept, seq![requests@[i as int]@]);
            assert(kept + seq![requests@[i as int]@] =~= kept.push(requests@[i as int]@));
        }
        if is_valid_file(requests[i].as_str()) {
            insert_unique(&mut paths, requests[i].clone());
        }
        i += 1;
    }
    assert(texts(requests@).take(i as int) =~= texts(requests@));
    paths
}

/// Classifies a reassembled stream. `http2_requests` holds the request paths that
/// an HTTP/2 engine read from the stream; it is looked at only where the stream
/// opens with the HTTP/2 preface.
pub fn classify(stream: &[u8], http2_requests: &Vec<String>) -> (c: Classification)
    ensures
        c@ == classification_of(stream@, texts(http2_requests@)),
{
    if is_http1_text(stream) {
        return Classification::HttpText { paths: extract_request_paths(stream) };
    }
    if has_http2_preface(stream) {
        return Classification::Http2Binary { paths: listed_requests(http2_requests) };
    }
    match carve(stream) {
        Some(found) => Classification::Carvable { kind: found.kind, start: 0, end: stream.len() },
        None => Classification::Unrecognized,
    }
}

/// The length of the empty line that follows a line feed at `at`: a second line
/// feed, or a carriage return and a line feed. Zero where there is none.
pub open spec fn blank_line_len(stream: Seq<u8>, at: int) -> int {
    if 0 <= at && at + 1 < stream.len() && stream[at] == 10 && stream[at + 1] == 10 {
        2
    } else if 0 <= at && at + 2 < stream.len() && stream[at] == 10 && stream[at + 1] == 13
        && stream[at + 2] == 10 {
        3
    } else {
        0
    }
}

/// The index after the first empty line at or after `from`, if there is one.
pub open spec fn after_blank_line(stream: Seq<u8>, from: int) -> Option<int>
    decreases stream.len() - from,
{
    if from < 0 || from >= stream.len() {
        None
    } else if blank_line_len(stream, from) > 0 {
        Some(from + blank_line_len(stream, from))
    } else {
        after_blank_line(stream, from + 1)
    }
}

/// The index after the first line feed at or after `from`, if there is one.
pub open spec fn after_line_feed(stream: Seq<u8>, from: int) -> Option<int>
    decreases stream.len() - from,
{
    if from < 0 || from >= stream.len() {
        None
    } else if stream[from] == 10 {
        Some(from + 1)
    } else {
        after_line_feed(stream, from + 1)
    }
}

/// Where the body of an HTTP/1.x message begins: after the first empty line;
/// without one, after the first line; without a line feed, at the end.
pub open spec fn body_start(stream: Seq<u8>) -> int {
    match after_blank_line(stream, 0) {
        Some(i) => i,
        None => match after_line_feed(stream, 0) {
            Some(i) => i,
            None => stream.len() as int,
        },
    }
}

/// The body of an HTTP/1.x message.
pub open spec fn message_body(stream: Seq<u8>) -> Seq<u8> {
    stream.skip(body_start(stream))
}

/// Finds where the body of an HTTP/1.x message begins.
pub fn find_body_start(stream: &[u8]) -> (at: usize)
    ensures
        at == body_start(stream@),
        at <= stream@.len(),
{
    let mut i: usize = 0;
    while i < stream.len()
        invariant
            i <= stream@.len(),
            after_blank_line(stream@, 0) == after_blank_line(stream@, i as int),
        decreases stream@.len() - i,
    {
        if stream[i] == 10 {
            if stream.len() - i > 1 && stream[i + 1] == 10 {
                return i + 2;
            }
            if stream.len() - i > 2 && stream[i + 1] == 13 && stream[i + 2] == 10 {
                return i + 3;
            }
        }
        i += 1;
    }
    let mut j: usize = 0;
    while j < stream.len()
        invariant
            j <= stream@.len(),
            after_blank_line(stream@, 0) is None,
            after_line_feed(stream@, 0) == after_line_feed(stream@, j as int),
        decreases stream@.len() - j,
    {
        if stream[j] == 10 {
            return j + 1;
        }
        j += 1;
    }
    stream.len()
}

/// Copies out the body of an HTTP/1.x message.
pub fn http_body(stream: &[u8]) -> (body: Vec<u8>)
    ensures
        body@ == message_body(stream@),
{
    let at = find_body_start(stream);
    let mut body: Vec<u8> = Vec::new();
    body.extend_from_slice(slice_subrange(stream, at, stream.len()));
    assert(body@ =~= message_body(stream@));
    body
}

/// The JPEG boundary in classification: a stream that opens with `FF D8 FF E0`
/// and is no HTTP/1.x text is a carvable JPEG file, from its first byte to its
/// last, exactly when it closes with `FF D9`; as long as the closing bytes are
/// missing it is not recognised at all. HTTP/1.x text is told first, so a
/// stream that names a version of HTTP/1 is left out here.
pub proof fn lemma_jpeg_boundary(stream: Seq<u8>, http2_requests: Seq<Seq<char>>)
    requires
        opening(FileKind::Jpeg).is_prefix_of(stream),
        !is_http_text(stream),
    ensures
        closing(FileKind::Jpeg).is_suffix_of(stream) ==> classification_of(stream, http2_requests)
            == (ClassificationModel::Carvable {
            kind: FileKind::Jpeg,
            start: 0,
            end: stream.len() as int,
        }),
        !closing(FileKind::Jpeg).is_suffix_of(stream) ==> classification_of(stream, http2_requests)
            == ClassificationModel::Unrecognized,
{
    let sig = opening(FileKind::Jpeg);
    assert(stream.subrange(0, sig.len() as int)[0] == stream[0]);
    assert(!http2_preface().is_prefix_of(stream)) by {
        if http2_preface().is_prefix_of(stream) {
            assert(stream.subrange(0, http2_preface().len() as int)[0] == stream[0]);
            assert(http2_preface()[0] == 0x50u8);
        }
    }
    lemma_jpeg_carved(stream);
}

/// The first request of a stream is reported whatever else the stream holds:
/// where HTTP/1.x text opens with a request line for a listed resource, it is
/// classified as HTTP text and that resource is the first of its paths. The
/// bytes after the line, text or not, change nothing in that.
pub proof fn lemma_first_request_reported(stream: Seq<u8>, http2_requests: Seq<Seq<char>>)
    requires
        is_http_text(stream),
        line_resource(stream.subrange(0, line_len(stream, 0) as int)) is Some,
    ensures
        classification_of(stream, http2_requests) matches ClassificationModel::HttpText { paths }
            && paths.len() > 0 && Some(paths[0]) == line_resource(
            stream.subrange(0, line_len(stream, 0) as int),
        ),
{
    let line = stream.subrange(0, line_len(stream, 0) as int);
    assert(stream.len() > 0) by {
        if stream.len() == 0 {
            reveal_strlit("GET ");
            reveal_strlit("POST ");
            reveal_strlit("PUT ");
            reveal_strlit("DELETE ");
            reveal_strlit("HEAD ");
            is_ascii_chars_encode_utf8("GET "@);
            is_ascii_chars_encode_utf8("POST "@);
            is_ascii_chars_encode_utf8("PUT "@);
            is_ascii_chars_encode_utf8("DELETE "@);
            is_ascii_chars_encode_utf8("HEAD "@);
            assert(line.len() == 0);
        }
    }
    let found = line_resource(line)->0;
    let all = request_paths(stream);
    assert(all.len() > 0 && all[0] == found);
    lemma_unique_first(all);
}

/// A line ends where the first line feed stands.
proof fn lemma_line_ends(stream: Seq<u8>, from: int, end: int)
    requires
        0 <= from <= end < stream.len(),
        forall|k: int| from <= k < end ==> stream[k] != 10,
        stream[end] == 10,
    ensures
        from + line_len(stream, from) == end,
    decreases end - from,
{
    if from < end {
        lemma_line_ends(stream, from + 1, end);
    }
}

/// A word ends where the first white space stands.
proof fn lemma_word_ends(s: Seq<u8>, from: int, end: int)
    requires
        0 <= from <= end < s.len(),
        forall|k: int| from <= k < end ==> !is_space(s[k]),
        is_space(s[end]),
    ensures
        skip_word(s, from) == end,
    decreases end - from,
{
    if from < end {
        lemma_word_ends(s, from + 1, end);
    }
}

/// The request line that asks for `path` by the method GET, with its line end.
pub open spec fn get_request_line(path: Seq<u8>) -> Seq<u8> {
    encode_utf8("GET "@) + path + encode_utf8(" HTTP/1.1"@) + seq![13u8, 10u8]
}

/// A request is reported whatever follows it: a stream that opens with the GET
/// request line for a path without white space, whose text ends with a listed
/// extension, is classified as HTTP text, and the text of the path is the
/// first of its resources. The bytes that follow, text or not, change nothing
/// in that.
pub proof fn lemma_request_reported(
    path: Seq<u8>,
    rest: Seq<u8>,
    http2_requests: Seq<Seq<char>>,
)
    requires
        path.len() > 0,
        forall|i: int| 0 <= i < path.len() ==> !is_space(#[trigger] path[i]),
        has_listed_extension(stream_text(path)),
    ensures
        classification_of(get_request_line(path) + rest, http2_requests)
            matches ClassificationModel::HttpText { paths } && paths.len() > 0 && paths[0]
            == stream_text(path),
{
    reveal_strlit("GET ");
    reveal_strlit(" HTTP/1.1");
    reveal_strlit("HTTP/1.1");
    is_ascii_chars_encode_utf8("GET "@);
    is_ascii_chars_encode_utf8(" HTTP/1.1"@);
    is_ascii_chars_encode_utf8("HTTP/1.1"@);
    let get = encode_utf8("GET "@);
    let tail = encode_utf8(" HTTP/1.1"@);
    let http = encode_utf8("HTTP/1.1"@);
    let n = path.len() as int;
    let stream = get_request_line(path) + rest;
    let end = n + 14;
    assert(get.len() == 4 && tail.len() == 9 && http.len() == 8);
    assert(stream.len() == n + 15 + rest.len());
    assert forall|k: int| 0 <= k < 4 implies stream[k] == get[k] by {}
    assert forall|k: int| 0 <= k < n implies stream[4 + k] == path[k] by {}
    assert forall|k: int| 0 <= k < 9 implies stream[4 + n + k] == tail[k] by {}
    assert(stream[n + 13] == 13u8 && stream[end] == 10u8);
    assert(http =~= stream.subrange(n + 5, n + 13)) by {
        assert forall|k: int| 0 <= k < 8 implies http[k] == stream[n + 5 + k] by {
            assert(stream[4 + n + (k + 1)] == tail[k + 1]);
        }
    }
    assert(bytes_occur_at(stream, http, n + 5));
    assert forall|k: int| 0 <= k < end implies stream[k] != 10 by {
        if k < 4 {
            assert(stream[k] == get[k]);
        } else if k < 4 + n {
            assert(stream[4 + (k - 4)] == path[k - 4]);
        } else if k < n + 13 {
            assert(stream[4 + n + (k - 4 - n)] == tail[k - 4 - n]);
        }
    }
    lemma_line_ends(stream, 0, end);
    let line = stream.subrange(0, end);
    assert(get =~= line.subrange(0, 4));
    assert forall|k: int| 0 <= k < 3 implies !is_space(line[k]) by {
        assert(line[k] == get[k]);
    }
    assert(is_space(line[3])) by {
        assert(line[3] == get[3]);
    }
    lemma_word_ends(line, 0, 3);
    assert(skip_spaces(line, 0) == 0);
    assert(!is_space(line[4])) by {
        assert(line[4] == path[0]);
    }
    assert(skip_spaces(line, 3) == 4) by {
        reveal_with_fuel(skip_spaces, 2);
    }
    assert forall|k: int| 4 <= k < 4 + n implies !is_space(line[k]) by {
        assert(line[k] == path[k - 4]);
    }
    assert(is_space(line[4 + n])) by {
        assert(line[4 + n] == tail[0]);
    }
    lemma_word_ends(line, 4, 4 + n);
    assert(line.subrange(4, 4 + n) =~= path);
    assert(second_word(line) == Some(path));
    lemma_first_request_reported(stream, http2_requests);
}

} // verus!
