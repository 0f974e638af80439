//! The export report: a hash line for each extracted file, the URLs and the
//! endpoints seen in the captures, and the entries of the archive that bundles
//! the report with the files.

use crate::flow::FlowKey;
use crate::frame::{decode_frame, decoded};
use crate::store::{file_name, file_name_of};
use crate::text::{
    add_unique, decimal, decimal_string, hex_string, hex_text, insert_unique,
    lemma_add_unique_concat, rows, texts, unique,
};
use crate::urls::{find_urls, urls_of};
use sha2::Digest;
use vstd::prelude::*;
use vstd::string::{StrSliceExecFns, StringExecFns};
use vstd::utf8::encode_utf8;

verus! {

/// The SHA-256 digest of `data`, as `sha2::Sha256::digest` computes it.
pub uninterp spec fn sha256(data: Seq<u8>) -> Seq<u8>;

/// Hashes `data` with `sha2::Sha256::digest`. Trusted: the digest is a function
/// of the data, named `sha256`.
#[verifier::external_body]
fn sha256_digest(data: &[u8]) -> (digest: Vec<u8>)
    ensures
        digest@ == sha256(data@),
{
    sha2::Sha256::digest(data).to_vec()
}

/// Each item followed by a line feed, one after the other.
pub open spec fn lines(items: Seq<Seq<char>>) -> Seq<char>
    decreases items.len(),
{
    if items.len() == 0 {
        Seq::empty()
    } else {
        lines(items.drop_last()) + items.last() + seq!['\n']
    }
}

/// Appends each item and a line feed to `out`.
pub fn append_lines(out: &mut String, items: &Vec<String>)
    ensures
        final(out)@ == old(out)@ + lines(texts(items@)),
{
    let mut i: usize = 0;
    proof {
        reveal_strlit("\n");
        assert(texts(items@).take(0) =~= Seq::<Seq<char>>::empty());
        assert(out@ + lines(texts(items@).take(0)) =~= out@);
    }
    while i < items.len()
        invariant
            i <= items@.len(),
            "\n"@ == seq!['\n'],
            out@ == old(out)@ + lines(texts(items@).take(i as int)),
        decreases items@.len() - i,
    {
        proof {
            let upto = texts(items@).take(i + 1);
            assert(upto.drop_last() =~= texts(items@).take(i as int));
            assert(upto.last() == items@[i as int]@);
        }
        let ghost before = out@;
        out.append(items[i].as_str());
        out.append("\n");
        assert(out@ =~= old(out)@ + lines(texts(items@).take(i + 1)));
        i += 1;
    }
    assert(texts(items@).take(i as int) =~= texts(items@));
}

/// The line that reports the hash of one file.
pub open spec fn hash_line_text(name: Seq<char>, digest: Seq<u8>) -> Seq<char> {
    "File: "@ + name + " - Hash (SHA256): "@ + hex_text(digest) + seq!['\n']
}

/// Writes the line that reports the hash of one file: its name and the digest
/// in lower-case hexadecimal.
pub fn hash_line(name: &str, digest: &[u8]) -> (line: String)
    ensures
        line@ == hash_line_text(name@, digest@),
{
    proof {
        reveal_strlit("\n");
    }
    let mut line = String::from_str("File: ");
    line.append(name);
    line.append(" - Hash (SHA256): ");
    line.append(hex_string(digest).as_str());
    line.append("\n");
    line
}

/// An IPv4 address in dotted decimal.
pub open spec fn dotted(addr: u32) -> Seq<char> {
    decimal((addr / 0x100_0000) as nat) + seq!['.'] + decimal((addr / 0x1_0000 % 0x100) as nat)
        + seq!['.'] + decimal((addr / 0x100 % 0x100) as nat) + seq!['.'] + decimal(
        (addr % 0x100) as nat,
    )
}

/// The report line of one endpoint: direction, address and port.
pub open spec fn endpoint_text(direction: Seq<char>, addr: u32, port: u16) -> Seq<char> {
    direction + ": "@ + dotted(addr) + seq![':'] + decimal(port as nat)
}

/// The two endpoints of a flow: its source, then its destination.
pub open spec fn endpoints_of_key(key: FlowKey) -> Seq<Seq<char>> {
    seq![
        endpoint_text("src"@, key.src_addr, key.src_port),
        endpoint_text("dst"@, key.dst_addr, key.dst_port),
    ]
}

/// The endpoints that one frame shows; none where it does not decode.
pub open spec fn endpoints_in(frame: Seq<u8>) -> Seq<Seq<char>> {
    match decoded(frame) {
        Some(segment) => endpoints_of_key(segment.key),
        None => Seq::empty(),
    }
}

/// The endpoints that the frames show, frame by frame.
pub open spec fn endpoints_of(frames: Seq<Seq<u8>>) -> Seq<Seq<char>>
    decreases frames.len(),
{
    if frames.len() == 0 {
        Seq::empty()
    } else {
        endpoints_of(frames.drop_last()) + endpoints_in(frames.last())
    }
}

/// Writes the report line of one endpoint.
pub fn endpoint_line(direction: &str, addr: u32, port: u16) -> (line: String)
    ensures
        line@ == endpoint_text(direction@, addr, port),
{
    proof {
        reveal_strlit(".");
        reveal_strlit(":");
    }
    let mut line = String::from_str(direction);
    line.append(": ");
    line.append(decimal_string((addr / 0x100_0000) as u64).as_str());
    line.append(".");
    line.append(decimal_string((addr / 0x1_0000 % 0x100) as u64).as_str());
    line.append(".");
    line.append(decimal_string((addr / 0x100 % 0x100) as u64).as_str());
    line.append(".");
    line.append(decimal_string((addr % 0x100) as u64).as_str());
    line.append(":");
    line.append(decimal_string(port as u64).as_str());
    assert(line@ =~= endpoint_text(direction@, addr, port));
    line
}

/// The endpoints that the frames show, each once, in the order in which they
/// first occur. A frame that does not decode shows none.
pub fn find_endpoints(frames: &Vec<Vec<u8>>) -> (endpoints: Vec<String>)
    ensures
        texts(endpoints@) == unique(endpoints_of(rows(frames@))),
{
    let mut endpoints: Vec<String> = Vec::new();
    let mut i: usize = 0;
    assert(rows(frames@).take(0) =~= Seq::<Seq<u8>>::empty());
    assert(texts(endpoints@) =~= Seq::<Seq<char>>::empty());
    while i < frames.len()
        invariant
            i <= frames@.len(),
            texts(endpoints@) == unique(endpoints_of(rows(frames@).take(i as int))),
        decreases frames@.len() - i,
    {
        proof {
            let upto = rows(frames@).take(i + 1);
            assert(upto.drop_last() =~= rows(frames@).take(i as int));
            assert(upto.last() == frames@[i as int]@);
            lemma_add_unique_concat(
                Seq::<Seq<char>>::empty(),
                endpoints_of(rows(frames@).take(i as int)),
                endpoints_in(frames@[i as int]@),
            );
        }
        let ghost before = texts(endpoints@);
        match decode_frame(frames[i].as_slice()) {
            Some(segment) => {
                let src = endpoint_line("src", segment.key.src_addr, segment.key.src_port);
                let dst = endpoint_line("dst", segment.key.dst_addr, segment.key.dst_port);
                proof {
                    lemma_add_unique_concat(before, seq![src@], seq![dst@]);
                    assert(seq![src@] + seq![dst@] =~= endpoints_of_key(segment.key));
                }
                insert_unique(&mut endpoints, src);
                insert_unique(&mut endpoints, dst);
            },
            None => {
                assert(add_unique(before, Seq::<Seq<char>>::empty()) == before);
            },
        }
        i += 1;
    }
    assert(rows(frames@).take(i as int) =~= rows(frames@));
    endpoints
}

/// The report section on URLs.
pub open spec fn url_section(urls: Seq<Seq<char>>) -> Seq<char> {
    "\nWebsites Found in PCAP Files\n"@ + lines(urls)
}

/// The report section on endpoints.
pub open spec fn endpoint_section(endpoints: Seq<Seq<char>>) -> Seq<char> {
    "\nIP adresses with ports:\n"@ + lines(endpoints)
}

/// Reports the URLs found in the captures: a heading, then each canonical URL
/// once, on a line of its own.
pub fn extract_urls(captures: &Vec<Vec<u8>>) -> (report: String)
    ensures
        report@ == url_section(unique(urls_of(rows(captures@)))),
{
    let mut report = String::from_str("\nWebsites Found in PCAP Files\n");
    append_lines(&mut report, &find_urls(captures));
    report
}

/// Reports the endpoints that the frames show: a heading, then each endpoint
/// once, on a line of its own.
pub fn extract_endpoints(frames: &Vec<Vec<u8>>) -> (report: String)
    ensures
        report@ == endpoint_section(unique(endpoints_of(rows(frames@)))),
{
    let mut report = String::from_str("\nIP adresses with ports:\n");
    append_lines(&mut report, &find_endpoints(frames));
    report
}

/// What was found on disk at the path of a manifest entry.
pub enum OnDisk {
    /// Nothing is there any more.
    Missing,
    /// Something that is not a regular file.
    NotAFile,
    /// A regular file that could not be read.
    Unreadable,
    /// A regular file with these bytes.
    File(Vec<u8>),
}

/// `OnDisk` with the file's bytes as a sequence.
pub enum OnDiskModel {
    Missing,
    NotAFile,
    Unreadable,
    File(Seq<u8>),
}

impl View for OnDisk {
    type V = OnDiskModel;

    open spec fn view(&self) -> OnDiskModel {
        match self {
            OnDisk::Missing => OnDiskModel::Missing,
            OnDisk::NotAFile => OnDiskModel::NotAFile,
            OnDisk::Unreadable => OnDiskModel::Unreadable,
            OnDisk::File(bytes) => OnDiskModel::File(bytes@),
        }
    }
}

/// A manifest entry with what was read at its path.
pub struct ManifestEntry {
    pub path: String,
    pub on_disk: OnDisk,
}

/// A `ManifestEntry` as text and bytes.
pub struct EntryModel {
    pub path: Seq<char>,
    pub on_disk: OnDiskModel,
}

impl View for ManifestEntry {
    type V = EntryModel;

    open spec fn view(&self) -> EntryModel {
        EntryModel { path: self.path@, on_disk: self.on_disk@ }
    }
}

impl DeepView for ManifestEntry {
    type V = EntryModel;

    open spec fn deep_view(&self) -> EntryModel {
        self@
    }
}

/// Who asked for the export, and for which time window.
pub struct ReportMetadata {
    pub name: String,
    pub surname: String,
    pub time_start: String,
    pub time_end: String,
}

/// `ReportMetadata` as texts.
pub struct MetadataModel {
    pub name: Seq<char>,
    pub surname: Seq<char>,
    pub time_start: Seq<char>,
    pub time_end: Seq<char>,
}

impl View for ReportMetadata {
    type V = MetadataModel;

    open spec fn view(&self) -> MetadataModel {
        MetadataModel {
            name: self.name@,
            surname: self.surname@,
            time_start: self.time_start@,
            time_end: self.time_end@,
        }
    }
}

/// Why a manifest cannot be packaged; `index` is the entry's place in the manifest.
#[derive(Clone, Copy, Debug, PartialEq, Eq, Structural)]
pub enum PackageError {
    /// The entry's file is no longer on disk.
    MissingFile { index: usize },
    /// The entry's file is there and cannot be read.
    UnreadableFile { index: usize },
    /// The entry's path gives no usable file name.
    InvalidIdentity { index: usize },
}

/// What to tell the operator about a fault at the manifest path `path`.
pub open spec fn fault_text(error: PackageError, path: Seq<char>) -> Seq<char> {
    match error {
        PackageError::MissingFile { .. } => "Failed to get metadata for: "@ + path,
        PackageError::UnreadableFile { .. } => "Failed to read file: "@ + path,
        PackageError::InvalidIdentity { .. } => "Failed to extract file name: "@ + path,
    }
}

impl PackageError {
    /// The place in the manifest of the entry at fault.
    pub fn index(&self) -> (i: usize)
        ensures
            i == match *self {
                PackageError::MissingFile { index } => index,
                PackageError::UnreadableFile { index } => index,
                PackageError::InvalidIdentity { index } => index,
            },
    {
        match self {
            PackageError::MissingFile { index } => *index,
            PackageError::UnreadableFile { index } => *index,
            PackageError::InvalidIdentity { index } => *index,
        }
    }

    /// What to tell the operator, given the manifest path of the entry at fault.
    pub fn message(&self, path: &str) -> (text: String)
        ensures
            text@ == fault_text(*self, path@),
    {
        let mut text = match self {
            PackageError::MissingFile { .. } => String::from_str("Failed to get metadata for: "),
            PackageError::UnreadableFile { .. } => String::from_str("Failed to read file: "),
            PackageError::InvalidIdentity { .. } => String::from_str(
                "Failed to extract file name: ",
            ),
        };
        text.append(path);
        text
    }
}

/// An entry of the archive: its name and its bytes, stored as they are.
pub struct ArchiveEntry {
    pub name: String,
    pub content: Vec<u8>,
}

/// An `ArchiveEntry` as text and bytes.
pub struct ArchiveModel {
    pub name: Seq<char>,
    pub content: Seq<u8>,
}

impl View for ArchiveEntry {
    type V = ArchiveModel;

    open spec fn view(&self) -> ArchiveModel {
        ArchiveModel { name: self.name@, content: self.content@ }
    }
}

impl DeepView for ArchiveEntry {
    type V = ArchiveModel;

    open spec fn deep_view(&self) -> ArchiveModel {
        self@
    }
}

/// What is wrong with the entry at `index`, if anything: its file is missing or
/// cannot be read, or it is a file whose path gives no name.
pub open spec fn fault_at(entry: EntryModel, index: int) -> Option<PackageError> {
    match entry.on_disk {
        OnDiskModel::Missing => Some(PackageError::MissingFile { index: index as usize }),
        OnDiskModel::Unreadable => Some(PackageError::UnreadableFile { index: index as usize }),
        OnDiskModel::NotAFile => None,
        OnDiskModel::File(_) => if file_name(entry.path) is None {
            Some(PackageError::InvalidIdentity { index: index as usize })
        } else {
            None
        },
    }
}

/// The fault of the first entry that has one.
pub open spec fn first_fault(entries: Seq<EntryModel>) -> Option<PackageError>
    decreases entries.len(),
{
    if entries.len() == 0 {
        None
    } else {
        match first_fault(entries.drop_last()) {
            Some(e) => Some(e),
            None => fault_at(entries.last(), entries.len() - 1),
        }
    }
}

/// The hash lines of the entries that are files with a name, in manifest order.
pub open spec fn hash_lines(entries: Seq<EntryModel>) -> Seq<char>
    decreases entries.len(),
{
    if entries.len() == 0 {
        Seq::empty()
    } else {
        let head = hash_lines(entries.drop_last());
        match (entries.last().on_disk, file_name(entries.last().path)) {
            (OnDiskModel::File(bytes), Some(name)) => head + hash_line_text(name, sha256(bytes)),
            _ => head,
        }
    }
}

/// The archive entries of the manifest: one for each entry that is a file with
/// a name, under that name, in manifest order.
pub open spec fn archived_files(entries: Seq<EntryModel>) -> Seq<ArchiveModel>
    decreases entries.len(),
{
    if entries.len() == 0 {
        Seq::empty()
    } else {
        let head = archived_files(entries.drop_last());
        match (entries.last().on_disk, file_name(entries.last().path)) {
            (OnDiskModel::File(bytes), Some(name)) => head.push(
                ArchiveModel { name, content: bytes },
            ),
            _ => head,
        }
    }
}

/// The report section on who exported and for which time window.
pub open spec fn header_section(meta: MetadataModel) -> Seq<char> {
    "Export informations:\nUser: "@ + meta.name + " "@ + meta.surname + "\nTime Start:"@
        + meta.time_start + "\nTime End:"@ + meta.time_end + "\n\n"@
}

/// The report section on the hashes of the extracted files.
pub open spec fn hash_section(entries: Seq<EntryModel>) -> Seq<char> {
    "Extracted Files Hashes\n"@ + hash_lines(entries)
}

/// The whole report, in its fixed order: who and when, the hashes of the files,
/// the URLs found in the captures, the endpoints that the frames show.
pub open spec fn info_text(
    meta: MetadataModel,
    entries: Seq<EntryModel>,
    captures: Seq<Seq<u8>>,
    frames: Seq<Seq<u8>>,
) -> Seq<char> {
    header_section(meta) + hash_section(entries) + url_section(unique(urls_of(captures)))
        + endpoint_section(unique(endpoints_of(frames)))
}

/// The name of the archive entry that holds the report.
pub open spec fn info_name() -> Seq<char> {
    "info.txt"@
}

/// What packaging gives: the fault of the first faulty entry; without one, the
/// report as the first archive entry and the files after it.
pub open spec fn packaged(
    meta: MetadataModel,
    entries: Seq<EntryModel>,
    captures: Seq<Seq<u8>>,
    frames: Seq<Seq<u8>>,
) -> Result<Seq<ArchiveModel>, PackageError> {
    match first_fault(entries) {
        Some(e) => Err(e),
        None => Ok(
            seq![
                ArchiveModel {
                    name: info_name(),
                    content: encode_utf8(info_text(meta, entries, captures, frames)),
                },
            ] + archived_files(entries),
        ),
    }
}

/// Writes the report section on who exported and for which time window.
pub fn header(meta: &ReportMetadata) -> (text: String)
    ensures
        text@ == header_section(meta@),
{
    let mut text = String::from_str("Export informations:\nUser: ");
    text.append(meta.name.as_str());
    text.append(" ");
    text.append(meta.surname.as_str());
    text.append("\nTime Start:");
    text.append(meta.time_start.as_str());
    text.append("\nTime End:");
    text.append(meta.time_end.as_str());
    text.append("\n\n");
    text
}

/// Checks the manifest and writes the hash section and the archive entries of
/// its files. Fails on the first entry whose file is missing, cannot be read or
/// has no name.
pub fn hash_files(entries: &Vec<ManifestEntry>) -> (r: Result<
    (String, Vec<ArchiveEntry>),
    PackageError,
>)
    ensures
        match r {
            Ok((text, files)) => first_fault(entries.deep_view()) is None && text@
                == hash_section(entries.deep_view()) && files.deep_view() == archived_files(
                entries.deep_view(),
            ),
            Err(e) => first_fault(entries.deep_view()) == Some(e),
        },
{
    let mut text = String::from_str("Extracted Files Hashes\n");
    let mut files: Vec<ArchiveEntry> = Vec::new();
    let mut i: usize = 0;
    proof {
        assert(entries.deep_view().take(0) =~= Seq::<EntryModel>::empty());
        assert(text@ + hash_lines(entries.deep_view().take(0)) =~= text@);
        assert(files.deep_view() =~= archived_files(entries.deep_view().take(0)));
    }
    while i < entries.len()
        invariant
            i <= entries@.len(),
            first_fault(entries.deep_view().take(i as int)) is None,
            text@ == hash_section(entries.deep_view().take(i as int)),
            files.deep_view() == archived_files(entries.deep_view().take(i as int)),
        decreases entries@.len() - i,
    {
        proof {
            let upto = entries.deep_view().take(i + 1);
            assert(upto.drop_last() =~= entries.deep_view().take(i as int));
            assert(upto.last() == entries@[i as int]@);
        }
        let ghost old_files = files.deep_view();
        match &entries[i].on_disk {
            OnDisk::Missing => {
                proof {
                    lemma_fault_stays(entries.deep_view(), i + 1);
                }
                return Err(PackageError::MissingFile { index: i });
            },
            OnDisk::Unreadable => {
                proof {
                    lemma_fault_stays(entries.deep_view(), i + 1);
                }
                return Err(PackageError::UnreadableFile { index: i });
            },
            OnDisk::NotAFile => {},
            OnDisk::File(bytes) => {
                match file_name_of(entries[i].path.as_str()) {
                    Some(name) => {
                        let digest = sha256_digest(bytes.as_slice());
                        text.append(hash_line(name.as_str(), digest.as_slice()).as_str());
                        files.push(ArchiveEntry { name, content: bytes.clone() });
                        assert(files.deep_view() =~= old_files.push(
                            ArchiveModel { name: name@, content: bytes@ },
                        ));
                        assert(text@ =~= hash_section(entries.deep_view().take(i + 1)));
                    },
                    None => {
                        proof {
                            lemma_fault_stays(entries.deep_view(), i + 1);
                        }
                        return Err(PackageError::InvalidIdentity { index: i });
                    },
                }
            },
        }
        i += 1;
    }
    assert(entries.deep_view().take(i as int) =~= entries.deep_view());
    Ok((text, files))
}

/// A fault among the first `n` entries is the first fault of all entries.
proof fn lemma_fault_stays(entries: Seq<EntryModel>, n: int)
    requires
        0 <= n <= entries.len(),
        first_fault(entries.take(n)) is Some,
    ensures
        first_fault(entries) == first_fault(entries.take(n)),
    decreases entries.len() - n,
{
    if n < entries.len() {
        assert(entries.take(n + 1).drop_last() =~= entries.take(n));
        lemma_fault_stays(entries, n + 1);
    } else {
        assert(entries.take(n) =~= entries);
    }
}

/// Plans the archive of one export: the report under the name `info.txt`, then
/// each file of the manifest under its base name. `captures` holds the raw bytes
/// of the capture files and `frames` their frames. Fails, before anything is
/// planned, on the first manifest entry whose file is missing, cannot be read
/// or has no name.
pub fn package(
    meta: &ReportMetadata,
    entries: &Vec<ManifestEntry>,
    captures: &Vec<Vec<u8>>,
    frames: &Vec<Vec<u8>>,
) -> (r: Result<Vec<ArchiveEntry>, PackageError>)
    ensures
        match r {
            Ok(archive) => packaged(
                meta@,
                entries.deep_view(),
                rows(captures@),
                rows(frames@),
            ) == Ok::<Seq<ArchiveModel>, PackageError>(archive.deep_view()),
            Err(e) => packaged(meta@, entries.deep_view(), rows(captures@), rows(frames@))
                == Err::<Seq<ArchiveModel>, PackageError>(e),
        },
{
    let (hashes, mut files) = match hash_files(entries) {
        Ok(done) => done,
        Err(e) => {
            return Err(e);
        },
    };
    let mut info = header(meta);
    info.append(hashes.as_str());
    info.append(extract_urls(captures).as_str());
    info.append(extract_endpoints(frames).as_str());
    let mut archive: Vec<ArchiveEntry> = Vec::new();
    archive.push(
        ArchiveEntry { name: String::from_str("info.txt"), content: info.as_str().as_bytes_vec() },
    );
    let ghost first = archive.deep_view();
    let ghost rest = files.deep_view();
    archive.append(&mut files);
    assert(archive.deep_view() =~= first + rest);
    assert(first =~= seq![
        ArchiveModel {
            name: info_name(),
            content: encode_utf8(
                info_text(meta@, entries.deep_view(), rows(captures@), rows(frames@)),
            ),
        },
    ]);
    Ok(archive)
}

} // verus!
