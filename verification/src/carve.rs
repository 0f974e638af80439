//! Signature carving: recognising a file in a raw byte stream by the bytes it
//! opens with and, for some formats, the bytes it closes with.

use crate::flow::head_of;
use vstd::prelude::*;

verus! {

/// The file formats that carving recognises, in the order in which they are tried.
#[derive(Clone, Copy, Debug, PartialEq, Eq, Structural)]
pub enum FileKind {
    Jpeg,
    Png,
    Gif,
    Text,
    Pdf,
    Zip,
}

/// The bytes that a file of this kind opens with.
pub open spec fn opening(kind: FileKind) -> Seq<u8> {
    match kind {
        FileKind::Jpeg => seq![0xFFu8, 0xD8u8, 0xFFu8, 0xE0u8],
        FileKind::Png => seq![0x89u8, 0x50u8, 0x4Eu8, 0x47u8, 0x0Du8, 0x0Au8, 0x1Au8, 0x0Au8],
        FileKind::Gif => seq![0x47u8, 0x49u8, 0x46u8, 0x38u8, 0x37u8, 0x61u8],
        FileKind::Text => seq![0x54u8, 0x45u8, 0x58u8, 0x54u8],
        FileKind::Pdf => seq![0x25u8, 0x50u8, 0x44u8, 0x46u8],
        FileKind::Zip => seq![0x50u8, 0x4Bu8, 0x03u8, 0x04u8],
    }
}

/// The bytes that a complete file of this kind closes with; empty where the
/// format is recognised by its opening alone.
pub open spec fn closing(kind: FileKind) -> Seq<u8> {
    match kind {
        FileKind::Jpeg => seq![0xFFu8, 0xD9u8],
        _ => Seq::empty(),
    }
}

/// `stream` opens and closes as a file of this kind does.
pub open spec fn has_signature(stream: Seq<u8>, kind: FileKind) -> bool {
    opening(kind).is_prefix_of(stream) && closing(kind).is_suffix_of(stream)
}

/// The kind that `stream` is carved as: the first in table order whose signature
/// it has.
pub open spec fn carved_kind(stream: Seq<u8>) -> Option<FileKind> {
    if has_signature(stream, FileKind::Jpeg) {
        Some(FileKind::Jpeg)
    } else if has_signature(stream, FileKind::Png) {
        Some(FileKind::Png)
    } else if has_signature(stream, FileKind::Gif) {
        Some(FileKind::Gif)
    } else if has_signature(stream, FileKind::Text) {
        Some(FileKind::Text)
    } else if has_signature(stream, FileKind::Pdf) {
        Some(FileKind::Pdf)
    } else if has_signature(stream, FileKind::Zip) {
        Some(FileKind::Zip)
    } else {
        None
    }
}

/// The file extension of this kind.
pub open spec fn extension_text(kind: FileKind) -> Seq<char> {
    match kind {
        FileKind::Jpeg => "jpg"@,
        FileKind::Png => "png"@,
        FileKind::Gif => "gif"@,
        FileKind::Text => "txt"@,
        FileKind::Pdf => "pdf"@,
        FileKind::Zip => "zip"@,
    }
}

/// A file carved out of a stream.
pub struct Carved {
    pub kind: FileKind,
    pub bytes: Vec<u8>,
}

/// Tests whether `stream` begins with `pat`.
pub fn bytes_start_with(stream: &[u8], pat: &[u8]) -> (r: bool)
    ensures
        r == pat@.is_prefix_of(stream@),
{
    if pat.len() > stream.len() {
        return false;
    }
    let mut i: usize = 0;
    while i < pat.len()
        invariant
            i <= pat.len() <= stream.len(),
            forall|j: int| 0 <= j < i ==> stream@[j] == pat@[j],
        decreases pat.len() - i,
    {
        if stream[i] != pat[i] {
            assert(stream@.subrange(0, pat.len() as int)[i as int] == stream@[i as int]);
            return false;
        }
        i += 1;
    }
    assert(pat@ =~= stream@.subrange(0, pat.len() as int));
    true
}

/// Tests whether `stream` ends with `pat`.
pub fn bytes_end_with(stream: &[u8], pat: &[u8]) -> (r: bool)
    ensures
        r == pat@.is_suffix_of(stream@),
{
    if pat.len() > stream.len() {
        return false;
    }
    let from: usize = stream.len() - pat.len();
    let mut i: usize = 0;
    while i < pat.len()
        invariant
            i <= pat.len() <= stream.len(),
            from == stream.len() - pat.len(),
            forall|j: int| 0 <= j < i ==> stream@[from + j] == pat@[j],
        decreases pat.len() - i,
    {
        if stream[from + i] != pat[i] {
            assert(stream@.subrange(from as int, stream.len() as int)[i as int] == stream@[from
                + i]);
            return false;
        }
        i += 1;
    }
    assert(pat@ =~= stream@.subrange(from as int, stream.len() as int));
    true
}

impl FileKind {
    /// The file extension that a carved file of this kind is named with.
    pub fn extension(self) -> (ext: &'static str)
        ensures
            ext@ == extension_text(self),
    {
        match self {
            FileKind::Jpeg => "jpg",
            FileKind::Png => "png",
            FileKind::Gif => "gif",
            FileKind::Text => "txt",
            FileKind::Pdf => "pdf",
            FileKind::Zip => "zip",
        }
    }

    /// The opening bytes of this kind.
    pub fn opening_bytes(self) -> (sig: Vec<u8>)
        ensures
            sig@ == opening(self),
    {
        let sig: Vec<u8> = match self {
            FileKind::Jpeg => vec![0xFFu8, 0xD8u8, 0xFFu8, 0xE0u8],
            FileKind::Png => vec![0x89u8, 0x50u8, 0x4Eu8, 0x47u8, 0x0Du8, 0x0Au8, 0x1Au8, 0x0Au8],
            FileKind::Gif => vec![0x47u8, 0x49u8, 0x46u8, 0x38u8, 0x37u8, 0x61u8],
            FileKind::Text => vec![0x54u8, 0x45u8, 0x58u8, 0x54u8],
            FileKind::Pdf => vec![0x25u8, 0x50u8, 0x44u8, 0x46u8],
            FileKind::Zip => vec![0x50u8, 0x4Bu8, 0x03u8, 0x04u8],
        };
        assert(sig@ =~= opening(self));
        sig
    }

    /// The closing bytes of this kind, empty where it has none.
    pub fn closing_bytes(self) -> (sig: Vec<u8>)
        ensures
            sig@ == closing(self),
    {
        let sig: Vec<u8> = match self {
            FileKind::Jpeg => vec![0xFFu8, 0xD9u8],
            _ => Vec::new(),
        };
        assert(sig@ =~= closing(self));
        sig
    }

    /// Tests whether `stream` has the signature of this kind.
    pub fn matches(self, stream: &[u8]) -> (r: bool)
        ensures
            r == has_signature(stream@, self),
    {
        let open = self.opening_bytes();
        let close = self.closing_bytes();
        bytes_start_with(stream, open.as_slice()) && bytes_end_with(stream, close.as_slice())
    }
}

/// Looks for a file in `stream`: the kinds are tried in table order and the first
/// whose signature the stream has is reported, with the whole stream as the
/// file's bytes. A stream without a signature gives nothing.
pub fn carve(stream: &[u8]) -> (r: Option<Carved>)
    ensures
        match r {
            Some(c) => carved_kind(stream@) == Some(c.kind) && c.bytes@ == stream@,
            None => carved_kind(stream@) is None,
        },
{
    let kind = if FileKind::Jpeg.matches(stream) {
        FileKind::Jpeg
    } else if FileKind::Png.matches(stream) {
        FileKind::Png
    } else if FileKind::Gif.matches(stream) {
        FileKind::Gif
    } else if FileKind::Text.matches(stream) {
        FileKind::Text
    } else if FileKind::Pdf.matches(stream) {
        FileKind::Pdf
    } else if FileKind::Zip.matches(stream) {
        FileKind::Zip
    } else {
        return None;
    };
    let mut bytes: Vec<u8> = Vec::new();
    bytes.extend_from_slice(stream);
    Some(Carved { kind, bytes })
}

/// The length of the longest opening of any kind.
pub const LONGEST_OPENING: usize = 8;

/// `head` opens as a file of some kind does.
pub open spec fn opens_as_file(head: Seq<u8>) -> bool {
    exists|kind: FileKind| opening(kind).is_prefix_of(head)
}

/// Tests whether `head` opens as a file of some kind does.
pub fn may_open_file(head: &[u8]) -> (r: bool)
    ensures
        r == opens_as_file(head@),
{
    let r = bytes_start_with(head, FileKind::Jpeg.opening_bytes().as_slice()) || bytes_start_with(
        head,
        FileKind::Png.opening_bytes().as_slice(),
    ) || bytes_start_with(head, FileKind::Gif.opening_bytes().as_slice()) || bytes_start_with(
        head,
        FileKind::Text.opening_bytes().as_slice(),
    ) || bytes_start_with(head, FileKind::Pdf.opening_bytes().as_slice()) || bytes_start_with(
        head,
        FileKind::Zip.opening_bytes().as_slice(),
    );
    proof {
        if !r {
            assert forall|kind: FileKind| !opening(kind).is_prefix_of(head@) by {
                match kind {
                    FileKind::Jpeg => {},
                    FileKind::Png => {},
                    FileKind::Gif => {},
                    FileKind::Text => {},
                    FileKind::Pdf => {},
                    FileKind::Zip => {},
                }
            }
        }
    }
    r
}

/// The head of a stream decides whether the stream can be carved: a stream
/// whose first bytes, as many as the longest opening has, open as no file does
/// is carved as nothing.
pub proof fn lemma_head_decides(stream: Seq<u8>)
    ensures
        !opens_as_file(head_of(stream, LONGEST_OPENING as int)) ==> carved_kind(stream) is None,
{
    let head = head_of(stream, LONGEST_OPENING as int);
    assert forall|kind: FileKind| opening(kind).is_prefix_of(stream) implies opening(
        kind,
    ).is_prefix_of(head) by {
        let sig = opening(kind);
        assert(sig.len() <= LONGEST_OPENING);
        assert(sig =~= head.subrange(0, sig.len() as int)) by {
            assert(sig =~= stream.subrange(0, sig.len() as int));
        }
    }
}

/// The JPEG boundary in carving: a stream that opens with `FF D8 FF E0` is
/// carved as a JPEG file exactly when it closes with `FF D9`; as long as the
/// closing bytes are missing it is carved as nothing.
pub proof fn lemma_jpeg_carved(stream: Seq<u8>)
    requires
        opening(FileKind::Jpeg).is_prefix_of(stream),
    ensures
        closing(FileKind::Jpeg).is_suffix_of(stream) ==> carved_kind(stream) == Some(
            FileKind::Jpeg,
        ),
        !closing(FileKind::Jpeg).is_suffix_of(stream) ==> carved_kind(stream) is None,
{
    let sig = opening(FileKind::Jpeg);
    assert(stream.subrange(0, sig.len() as int)[0] == stream[0]);
    assert(stream[0] == 0xFFu8);
    assert forall|kind: FileKind| kind != FileKind::Jpeg implies !opening(kind).is_prefix_of(
        stream,
    ) by {
        if opening(kind).is_prefix_of(stream) {
            assert(stream.subrange(0, opening(kind).len() as int)[0] == stream[0]);
            assert(opening(kind)[0] != 0xFFu8);
        }
    }
}

} // verus!
