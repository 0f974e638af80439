//! The analysis of one capture: frames are decoded and reassembled into flows,
//! files are carved out as soon as a flow holds one, and at the end each flow's
//! stream is classified and its resources are stored.

use crate::arrival::lemma_ingest_buffer;
use crate::carve::{
    carve, carved_kind, lemma_head_decides, may_open_file, FileKind, LONGEST_OPENING,
};
use crate::classify::{
    awaits_http2, classification_of, classify, http_body, message_body, needs_http2_engine,
    Classification, ClassificationModel,
};
use crate::flow::{buffer_of, clear_in, ingest_into, stream_of, FlowState, Reassembler};
use crate::frame::{decode_frame, decoded, SegmentModel};
use crate::store::{carved_name, plan_of, put_into, ArtifactModel, ArtifactStore, ExportItem};
use crate::text::{rows, texts};
use vstd::prelude::*;
use vstd::slice::slice_subrange;

verus! {

/// What an analysis holds: the flows being reassembled, the artifacts stored so
/// far, the number of the next carved file, the streams handed over for
/// classification, and how many of them have been classified.
pub struct AnalysisState {
    pub flows: Seq<FlowState>,
    pub artifacts: Seq<ArtifactModel>,
    pub next_token: nat,
    pub streams: Seq<Seq<u8>>,
    pub cursor: int,
}

/// The state after a carved file has been stored under the next number; when
/// the numbers are used up the file is dropped.
pub open spec fn store_carved(
    state: AnalysisState,
    kind: FileKind,
    bytes: Seq<u8>,
) -> AnalysisState {
    if state.next_token < u64::MAX {
        AnalysisState {
            artifacts: put_into(state.artifacts, carved_name(state.next_token, kind), bytes),
            next_token: state.next_token + 1,
            ..state
        }
    } else {
        state
    }
}

/// The artifacts after `content` has been stored under each of `paths`, in order.
pub open spec fn put_all(
    artifacts: Seq<ArtifactModel>,
    paths: Seq<Seq<char>>,
    content: Seq<u8>,
) -> Seq<ArtifactModel>
    decreases paths.len(),
{
    if paths.len() == 0 {
        artifacts
    } else {
        put_into(put_all(artifacts, paths.drop_last(), content), paths.last(), content)
    }
}

/// The state after a decoded segment: its flow takes the payload in; if the
/// flow's stream then has a file signature, the stream is stored as a carved
/// file and the flow's buffer is emptied.
pub open spec fn after_segment(state: AnalysisState, segment: SegmentModel) -> AnalysisState {
    let flows = ingest_into(state.flows, segment.key, segment.sequence, segment.payload);
    let stream = stream_of(buffer_of(flows, segment.key));
    match carved_kind(stream) {
        Some(kind) => store_carved(
            AnalysisState { flows: clear_in(flows, segment.key), ..state },
            kind,
            stream,
        ),
        None => AnalysisState { flows, ..state },
    }
}

/// The state after one frame; a frame that does not decode changes nothing.
pub open spec fn after_frame(state: AnalysisState, frame: Seq<u8>) -> AnalysisState {
    match decoded(frame) {
        Some(segment) => after_segment(state, segment),
        None => state,
    }
}

/// The state after a classified stream has been recorded. Each resource of an
/// HTTP/1.x stream is stored with the message body; each resource of an HTTP/2
/// stream with the whole stream; a carvable stream as a carved file; an
/// unrecognised stream not at all.
pub open spec fn recorded(
    state: AnalysisState,
    stream: Seq<u8>,
    class: ClassificationModel,
) -> AnalysisState {
    match class {
        ClassificationModel::HttpText { paths } => AnalysisState {
            artifacts: put_all(state.artifacts, paths, message_body(stream)),
            ..state
        },
        ClassificationModel::Http2Binary { paths } => AnalysisState {
            artifacts: put_all(state.artifacts, paths, stream),
            ..state
        },
        ClassificationModel::Carvable { kind, start, end } => store_carved(
            state,
            kind,
            stream.subrange(start, end),
        ),
        ClassificationModel::Unrecognized => state,
    }
}

/// The state after the stream at the cursor has been classified, with the
/// request paths that an HTTP/2 engine read from it, and recorded.
pub open spec fn after_stream(
    state: AnalysisState,
    http2_requests: Seq<Seq<char>>,
) -> AnalysisState {
    let stream = state.streams[state.cursor];
    AnalysisState {
        cursor: state.cursor + 1,
        ..recorded(state, stream, classification_of(stream, http2_requests))
    }
}

/// The state after the streams from the cursor up to `upto` have been classified
/// and recorded, none of them with paths from an HTTP/2 engine.
pub open spec fn settled(state: AnalysisState, upto: int) -> AnalysisState
    decreases upto - state.cursor,
{
    if upto <= state.cursor {
        state
    } else {
        after_stream(settled(state, upto - 1), Seq::empty())
    }
}

/// The first index at or after `from` of a stream that awaits an HTTP/2 engine,
/// or the number of streams where there is none.
pub open spec fn next_waiting(streams: Seq<Seq<u8>>, from: int) -> int
    decreases streams.len() - from,
{
    if from < 0 || from >= streams.len() {
        streams.len() as int
    } else if awaits_http2(streams[from]) {
        from
    } else {
        next_waiting(streams, from + 1)
    }
}

/// The streams of the flows, in the flows' order.
pub open spec fn streams_of(flows: Seq<FlowState>) -> Seq<Seq<u8>> {
    Seq::new(flows.len(), |i: int| stream_of(flows[i].buffer))
}

/// Stores `content` under each of `paths`, in order.
fn store_all(store: &mut ArtifactStore, paths: Vec<String>, content: &Vec<u8>)
    requires
        old(store).wf(),
    ensures
        final(store).wf(),
        final(store)@ == put_all(old(store)@, texts(paths@), content@),
        final(store).next_token() == old(store).next_token(),
{
    let mut paths = paths;
    let ghost all = texts(paths@);
    let mut i: usize = 0;
    assert(all.take(0) =~= Seq::<Seq<char>>::empty());
    while i < paths.len()
        invariant
            i <= paths@.len(),
            texts(paths@) == all,
            store.wf(),
            store@ == put_all(old(store)@, all.take(i as int), content@),
            store.next_token() == old(store).next_token(),
        decreases paths@.len() - i,
    {
        proof {
            assert(all.take(i + 1).drop_last() =~= all.take(i as int));
            assert(all.take(i + 1).last() == paths@[i as int]@);
        }
        store.put(paths[i].clone(), content.clone());
        i += 1;
    }
    assert(all.take(i as int) =~= all);
}

/// One analysis run over the frames of a capture.
pub struct Analyzer {
    reassembler: Reassembler,
    store: ArtifactStore,
    streams: Vec<Vec<u8>>,
    cursor: usize,
}

impl Analyzer {
    /// The parts are well formed and the cursor is within the streams.
    pub closed spec fn wf(&self) -> bool {
        &&& self.reassembler.wf()
        &&& self.store.wf()
        &&& self.cursor <= self.streams@.len()
    }

    pub closed spec fn view(&self) -> AnalysisState {
        AnalysisState {
            flows: self.reassembler@,
            artifacts: self.store@,
            next_token: self.store.next_token(),
            streams: rows(self.streams@),
            cursor: self.cursor as int,
        }
    }

    /// An analysis that has seen nothing.
    pub fn new() -> (a: Analyzer)
        ensures
            a.wf(),
            a@ == (AnalysisState {
                flows: Seq::empty(),
                artifacts: Seq::empty(),
                next_token: 0,
                streams: Seq::empty(),
                cursor: 0,
            }),
    {
        let a = Analyzer {
            reassembler: Reassembler::new(),
            store: ArtifactStore::new(),
            streams: Vec::new(),
            cursor: 0,
        };
        assert(rows(a.streams@) =~= Seq::<Seq<u8>>::empty());
        a
    }

    /// Takes in one frame of the capture. A frame that does not decode is skipped.
    /// The payload of one that does goes to its flow; if the flow's stream then
    /// has a file signature, the stream is stored as a carved file and the
    /// flow starts afresh.
    pub fn ingest_frame(&mut self, frame: &[u8])
        requires
            old(self).wf(),
        ensures
            final(self).wf(),
            final(self)@ == after_frame(old(self)@, frame@),
    {
        let segment = match decode_frame(frame) {
            Some(s) => s,
            None => {
                return ;
            },
        };
        let key = segment.key;
        self.reassembler.ingest(key, segment.sequence, segment.payload);
        proof {
            self.reassembler.lemma_distinct_keys();
            old(self).reassembler.lemma_distinct_keys();
            lemma_ingest_buffer(
                old(self).reassembler@,
                key,
                segment.sequence,
                segment.payload@,
            );
        }
        let head = match self.reassembler.head(key, LONGEST_OPENING) {
            Some(bytes) => bytes,
            None => {
                return ;
            },
        };
        if !may_open_file(head.as_slice()) {
            proof {
                lemma_head_decides(stream_of(buffer_of(self.reassembler@, key)));
            }
            return ;
        }
        let stream = match self.reassembler.stream(key) {
            Some(bytes) => bytes,
            None => {
                return ;
            },
        };
        match carve(stream.as_slice()) {
            Some(found) => {
                self.reassembler.clear(key);
                self.store.put_carved(found.kind, found.bytes);
            },
            None => {},
        }
    }

    /// Ends the reassembly: every flow's stream is handed over for
    /// classification, in the order in which the flows were first seen, and
    /// the flows are forgotten.
    pub fn close(&mut self)
        requires
            old(self).wf(),
        ensures
            final(self).wf(),
            final(self)@ == (AnalysisState {
                flows: Seq::empty(),
                streams: old(self)@.streams + streams_of(old(self)@.flows),
                ..old(self)@
            }),
    {
        let drained = self.reassembler.drain();
        let ghost before = rows(self.streams@);
        let ghost added = streams_of(old(self)@.flows);
        let mut i: usize = 0;
        while i < drained.len()
            invariant
                i <= drained@.len(),
                drained@.len() == added.len(),
                forall|j: int|
                    0 <= j < drained@.len() ==> (#[trigger] drained@[j]).1@ == added[j],
                rows(self.streams@) == before + added.take(i as int),
                self.cursor == old(self).cursor,
                self.cursor <= before.len(),
                self.store == old(self).store,
                self.reassembler.wf(),
                self.reassembler@ == Seq::<FlowState>::empty(),
            decreases drained@.len() - i,
        {
            let ghost so_far = rows(self.streams@);
            self.streams.push(drained[i].1.clone());
            assert(rows(self.streams@) =~= so_far.push(added[i as int]));
            assert(before + added.take(i + 1) =~= (before + added.take(i as int)).push(
                added[i as int],
            ));
            i += 1;
        }
        assert(added.take(i as int) =~= added);
    }

    /// Records the classification of a stream in the store.
    fn record(store: &mut ArtifactStore, stream: &Vec<u8>, class: Classification)
        requires
            old(store).wf(),
            class@ matches ClassificationModel::Carvable { start, end, .. } ==> 0 <= start <= end
                <= stream@.len(),
        ensures
            final(store).wf(),
            forall|state: AnalysisState|
                state.artifacts == old(store)@ && state.next_token == old(store).next_token()
                    ==> #[trigger] recorded(state, stream@, class@) == (AnalysisState {
                    artifacts: final(store)@,
                    next_token: final(store).next_token(),
                    ..state
                }),
    {
        match class {
            Classification::HttpText { paths } => {
                let body = http_body(stream.as_slice());
                store_all(store, paths, &body);
            },
            Classification::Http2Binary { paths } => {
                store_all(store, paths, stream);
            },
            Classification::Carvable { kind, start, end } => {
                let mut bytes: Vec<u8> = Vec::new();
                bytes.extend_from_slice(slice_subrange(stream.as_slice(), start, end));
                assert(bytes@ =~= stream@.subrange(start as int, end as int));
                store.put_carved(kind, bytes);
            },
            Classification::Unrecognized => {},
        }
    }

    /// Classifies and records the streams from the cursor on, up to the first
    /// that has to be read by an HTTP/2 engine. Returns whether there is such
    /// a stream: the cursor then stands on it, and `resolve_http2` takes the
    /// engine's answer. Otherwise every stream has been recorded.
    pub fn advance(&mut self) -> (waiting: bool)
        requires
            old(self).wf(),
        ensures
            final(self).wf(),
            final(self)@ == settled(
                old(self)@,
                next_waiting(old(self)@.streams, old(self)@.cursor),
            ),
            waiting == (final(self)@.cursor < final(self)@.streams.len()),
            waiting ==> awaits_http2(final(self)@.streams[final(self)@.cursor]),
    {
        let none: Vec<String> = Vec::new();
        assert(texts(none@) =~= Seq::<Seq<char>>::empty());
        while self.cursor < self.streams.len()
            invariant
                self.wf(),
                texts(none@) == Seq::<Seq<char>>::empty(),
                old(self)@.cursor <= self.cursor <= self.streams@.len(),
                self@.streams == old(self)@.streams,
                self@ == settled(old(self)@, self.cursor as int),
                next_waiting(old(self)@.streams, old(self)@.cursor) == next_waiting(
                    self@.streams,
                    self.cursor as int,
                ),
            decreases self.streams@.len() - self.cursor,
        {
            if needs_http2_engine(self.streams[self.cursor].as_slice()) {
                return true;
            }
            let class = classify(self.streams[self.cursor].as_slice(), &none);
            let ghost before = self@;
            Self::record(&mut self.store, &self.streams[self.cursor], class);
            self.cursor = self.cursor + 1;
            assert(self@ == after_stream(before, Seq::empty()));
        }
        false
    }

    /// The stream that awaits an HTTP/2 engine, if the cursor stands on one.
    pub fn waiting_stream(&self) -> (r: Option<&Vec<u8>>)
        requires
            self.wf(),
        ensures
            match r {
                Some(stream) => self@.cursor < self@.streams.len() && stream@
                    == self@.streams[self@.cursor] && awaits_http2(stream@),
                None => !(self@.cursor < self@.streams.len() && awaits_http2(
                    self@.streams[self@.cursor],
                )),
            },
    {
        if self.cursor < self.streams.len() && needs_http2_engine(
            self.streams[self.cursor].as_slice(),
        ) {
            Some(&self.streams[self.cursor])
        } else {
            None
        }
    }

    /// Takes the request paths that an HTTP/2 engine read from the waiting
    /// stream, records the stream with them and moves past it. Where no stream
    /// is waiting nothing changes and `false` is returned.
    pub fn resolve_http2(&mut self, requests: &Vec<String>) -> (resolved: bool)
        requires
            old(self).wf(),
        ensures
            final(self).wf(),
            resolved == (old(self)@.cursor < old(self)@.streams.len() && awaits_http2(
                old(self)@.streams[old(self)@.cursor],
            )),
            final(self)@ == if resolved {
                after_stream(old(self)@, texts(requests@))
            } else {
                old(self)@
            },
    {
        if self.cursor < self.streams.len() && needs_http2_engine(
            self.streams[self.cursor].as_slice(),
        ) {
            let class = classify(self.streams[self.cursor].as_slice(), requests);
            Self::record(&mut self.store, &self.streams[self.cursor], class);
            self.cursor = self.cursor + 1;
            true
        } else {
            false
        }
    }

    /// The files to write out for the artifacts stored so far.
    pub fn export_plan(&self) -> (plan: Vec<ExportItem>)
        requires
            self.wf(),
        ensures
            plan.deep_view() == plan_of(self@.artifacts),
    {
        self.store.export_plan()
    }
}

} // verus!
