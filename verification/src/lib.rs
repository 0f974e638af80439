//! Network-forensics extraction: from the frames of a recorded capture to the
//! files that the traffic carried and a report on them.
//!
//! - `frame` decodes a link-layer frame into the flow it belongs to and its payload.
//! - `flow` reassembles the payloads of each flow into a byte stream; `arrival`
//!   holds the laws of reassembly.
//! - `carve` recognises files by their signatures.
//! - `classify` tells HTTP/1.x text, HTTP/2 and carvable streams apart and reads
//!   the request paths of HTTP text.
//! - `store` keeps the extracted files by identity and names them for export.
//! - `analysis` runs these over one capture, frame by frame.
//! - `urls` and `report` build the export report and plan the archive.
//! - `text` holds what the others share on characters and strings.
//!
//! The library reads and writes nothing. Its caller reads the capture, runs the
//! HTTP/2 engine where `analysis` asks for it, and writes the planned files and
//! archive entries.

pub mod analysis;
pub mod arrival;
pub mod carve;
pub mod classify;
pub mod flow;
pub mod frame;
pub mod report;
pub mod store;
pub mod text;
pub mod urls;
