//! Flow reassembly: segments of one direction of a connection are buffered by
//! sequence number and read back in ascending order, whatever order they arrived in.
//! The segments of a flow are kept in a `BTreeMap`, which walks them in that order.

use std::collections::BTreeMap;
use vstd::prelude::*;
use vstd::std_specs::btree::{
    axiom_increasing_seq_meaning, axiom_spec_btree_map_iter, increasing_seq, spec_btree_map_iter,
};
use vstd::std_specs::cmp::OrdSpec;
use vstd::std_specs::iter::IteratorSpec;

verus! {

/// One direction of traffic between two transport endpoints. Addresses are IPv4
/// addresses as 32-bit numbers, most significant octet first.
#[derive(Clone, Copy, Debug, PartialEq, Eq, Hash, Structural)]
pub struct FlowKey {
    pub src_addr: u32,
    pub dst_addr: u32,
    pub src_port: u16,
    pub dst_port: u16,
}

/// What one flow has buffered: the sequenced segments by sequence number, and the
/// bytes of unsequenced datagrams in arrival order.
pub struct FlowModel {
    pub segments: Map<u32, Seq<u8>>,
    pub datagrams: Seq<u8>,
}

/// One flow that the reassembler knows.
pub struct FlowState {
    pub key: FlowKey,
    pub buffer: FlowModel,
}

/// The number of distinct sequence numbers.
pub open spec fn sequence_space() -> nat {
    0x1_0000_0000
}

/// A buffer that holds nothing.
pub open spec fn empty_flow() -> FlowModel {
    FlowModel { segments: Map::empty(), datagrams: Seq::empty() }
}

/// The segments with a sequence number below `bound`, concatenated in ascending
/// order of sequence number.
pub open spec fn assemble_below(segments: Map<u32, Seq<u8>>, bound: nat) -> Seq<u8>
    decreases bound,
{
    if bound == 0 {
        Seq::empty()
    } else {
        let k = (bound - 1) as u32;
        let lower = assemble_below(segments, (bound - 1) as nat);
        if segments.dom().contains(k) {
            lower + segments[k]
        } else {
            lower
        }
    }
}

/// The byte stream of a flow: its segments in ascending sequence order, then its
/// datagram bytes.
pub open spec fn stream_of(buffer: FlowModel) -> Seq<u8> {
    assemble_below(buffer.segments, sequence_space()) + buffer.datagrams
}

/// The first `n` bytes of `stream`, or all of it where it has fewer.
pub open spec fn head_of(stream: Seq<u8>, n: int) -> Seq<u8> {
    if stream.len() <= n {
        stream
    } else {
        stream.take(n)
    }
}

/// The buffer after one more payload. A segment replaces an earlier one with the
/// same sequence number; sequence number zero first discards all that was
/// buffered; a payload without a sequence number is appended to the datagrams.
pub open spec fn accept(buffer: FlowModel, seq: Option<u32>, payload: Seq<u8>) -> FlowModel {
    match seq {
        Some(s) => {
            let base = if s == 0 {
                empty_flow()
            } else {
                buffer
            };
            FlowModel { segments: base.segments.insert(s, payload), datagrams: base.datagrams }
        },
        None => FlowModel { segments: buffer.segments, datagrams: buffer.datagrams + payload },
    }
}

/// `key` is known in `flows`.
pub open spec fn is_known(flows: Seq<FlowState>, key: FlowKey) -> bool {
    exists|i: int| 0 <= i < flows.len() && flows[i].key == key
}

/// The position of `key` in `flows`, when it is known.
pub open spec fn slot(flows: Seq<FlowState>, key: FlowKey) -> int {
    choose|i: int| 0 <= i < flows.len() && flows[i].key == key
}

/// What `flows` has buffered for `key`; nothing when the key is not known.
pub open spec fn buffer_of(flows: Seq<FlowState>, key: FlowKey) -> FlowModel {
    if is_known(flows, key) {
        flows[slot(flows, key)].buffer
    } else {
        empty_flow()
    }
}

/// No two entries of `flows` have the same key.
pub open spec fn distinct_keys(flows: Seq<FlowState>) -> bool {
    forall|i: int, j: int| 0 <= i < j < flows.len() ==> flows[i].key != flows[j].key
}

/// The flows after one payload for `key`: a known flow accepts it in place, an
/// unknown key is appended as a new flow.
pub open spec fn ingest_into(
    flows: Seq<FlowState>,
    key: FlowKey,
    seq: Option<u32>,
    payload: Seq<u8>,
) -> Seq<FlowState> {
    if is_known(flows, key) {
        let i = slot(flows, key);
        flows.update(i, FlowState { key, buffer: accept(flows[i].buffer, seq, payload) })
    } else {
        flows.push(FlowState { key, buffer: accept(empty_flow(), seq, payload) })
    }
}

/// The flows after the buffer of `key` has been emptied; the key stays known.
pub open spec fn clear_in(flows: Seq<FlowState>, key: FlowKey) -> Seq<FlowState> {
    if is_known(flows, key) {
        flows.update(slot(flows, key), FlowState { key, buffer: empty_flow() })
    } else {
        flows
    }
}

/// Where no sequence number from `low` up to `high` is buffered, assembling below
/// `high` gives what assembling below `low` gives.
pub proof fn lemma_assemble_gap(segments: Map<u32, Seq<u8>>, low: nat, high: nat)
    requires
        low <= high <= sequence_space(),
        forall|k: u32| low <= k < high ==> !segments.dom().contains(k),
    ensures
        assemble_below(segments, high) == assemble_below(segments, low),
    decreases high - low,
{
    if low < high {
        lemma_assemble_gap(segments, low, (high - 1) as nat);
    }
}

/// The segments that a map of fragments holds, each with its bytes.
spec fn segments_of(fragments: Map<u32, Vec<u8>>) -> Map<u32, Seq<u8>> {
    Map::new(|k: u32| fragments.contains_key(k), |k: u32| fragments[k]@)
}

/// The bytes of the first `n` entries, one after the other.
spec fn flatten(entries: Seq<(&u32, &Vec<u8>)>, n: int) -> Seq<u8>
    decreases n,
{
    if n <= 0 {
        Seq::empty()
    } else {
        flatten(entries, n - 1) + entries[n - 1].1@
    }
}

/// The keys of the entries.
spec fn keys_of(entries: Seq<(&u32, &Vec<u8>)>) -> Seq<u32> {
    entries.map_values(|kv: (&u32, &Vec<u8>)| *kv.0)
}

/// `entries` walks `fragments` in ascending order of sequence number: every
/// entry is in the map, every key of the map has its entry, and the keys ascend.
spec fn walks(entries: Seq<(&u32, &Vec<u8>)>, fragments: Map<u32, Vec<u8>>) -> bool {
    &&& forall|i: int, j: int| 0 <= i < j < entries.len() ==> *entries[i].0 < *entries[j].0
    &&& forall|i: int|
        0 <= i < entries.len() ==> fragments.contains_key(*(#[trigger] entries[i]).0)
            && fragments[*entries[i].0] == *entries[i].1
    &&& forall|k: u32| #[trigger]
        fragments.contains_key(k) ==> exists|i: int| 0 <= i < entries.len() && *entries[i].0 == k
}

/// Keys that the map walks in increasing order ascend by `<`.
proof fn lemma_increasing(keys: Seq<u32>)
    requires
        increasing_seq(keys),
    ensures
        forall|i: int, j: int| 0 <= i < j < keys.len() ==> keys[i] < keys[j],
{
    broadcast use vstd::laws_cmp::group_laws_cmp;
    axiom_increasing_seq_meaning(keys);
    assert forall|i: int, j: int| 0 <= i < j < keys.len() implies keys[i] < keys[j] by {
        assert(keys[i].cmp_spec(&keys[j]) is Less);
    }
}

/// The entries that `BTreeMap::iter` hands out walk the map.
proof fn lemma_walks(m: &BTreeMap<u32, Vec<u8>>)
    requires
        increasing_seq(keys_of(spec_btree_map_iter(m).remaining())),
    ensures
        walks(spec_btree_map_iter(m).remaining(), m@),
{
    let v = spec_btree_map_iter(m).remaining();
    axiom_spec_btree_map_iter(m);
    lemma_increasing(keys_of(v));
    assert forall|i: int, j: int| 0 <= i < j < v.len() implies *v[i].0 < *v[j].0 by {
        assert(keys_of(v)[i] == *v[i].0);
        assert(keys_of(v)[j] == *v[j].0);
    }
    assert forall|i: int| 0 <= i < v.len() implies m@.contains_key(*(#[trigger] v[i]).0)
        && m@[*v[i].0] == *v[i].1 by {
        assert(m@.contains_key(*v[i].0));
    }
    assert forall|k: u32| #[trigger] m@.contains_key(k) implies exists|i: int|
        0 <= i < v.len() && *v[i].0 == k by {
        assert(v.contains((&k, &m@[k])));
        let i = choose|i: int| 0 <= i < v.len() && v[i] == (&k, &m@[k]);
        assert(*v[i].0 == k);
    }
}

/// The first `n` entries hold what the model assembles below the next entry's
/// sequence number.
proof fn lemma_flatten(entries: Seq<(&u32, &Vec<u8>)>, fragments: Map<u32, Vec<u8>>, n: int)
    requires
        walks(entries, fragments),
        0 <= n <= entries.len(),
    ensures
        flatten(entries, n) == assemble_below(
            segments_of(fragments),
            if n < entries.len() {
                *entries[n].0 as nat
            } else {
                sequence_space()
            },
        ),
    decreases n,
{
    let segs = segments_of(fragments);
    let bound: nat = if n < entries.len() {
        *entries[n].0 as nat
    } else {
        sequence_space()
    };
    if n == 0 {
        assert forall|k: u32| 0 <= k < bound implies !segs.dom().contains(k) by {
            if segs.dom().contains(k) {
                assert(fragments.contains_key(k));
                let i = choose|i: int| 0 <= i < entries.len() && *entries[i].0 == k;
                if 0 < i {
                    assert(*entries[0].0 < *entries[i].0);
                }
            }
        }
        lemma_assemble_gap(segs, 0, bound);
    } else {
        lemma_flatten(entries, fragments, n - 1);
        let s = *entries[n - 1].0;
        assert(fragments.contains_key(*entries[n - 1].0));
        assert(segs.dom().contains(s) && segs[s] == entries[n - 1].1@);
        assert forall|k: u32| s + 1 <= k < bound implies !segs.dom().contains(k) by {
            if segs.dom().contains(k) {
                assert(fragments.contains_key(k));
                let i = choose|i: int| 0 <= i < entries.len() && *entries[i].0 == k;
                if i < n - 1 {
                    assert(*entries[i].0 < *entries[n - 1].0);
                } else if i > n - 1 {
                    if n < i {
                        assert(*entries[n].0 < *entries[i].0);
                    }
                }
            }
        }
        lemma_assemble_gap(segs, (s + 1) as nat, bound);
        assert(assemble_below(segs, (s + 1) as nat) == assemble_below(segs, s as nat)
            + segs[s]);
    }
}

/// The bytes of the first entries open the bytes of all the entries.
proof fn lemma_flatten_prefix(entries: Seq<(&u32, &Vec<u8>)>, i: int, j: int)
    requires
        0 <= i <= j,
    ensures
        flatten(entries, i).is_prefix_of(flatten(entries, j)),
    decreases j - i,
{
    if i < j {
        lemma_flatten_prefix(entries, i, j - 1);
        let a = flatten(entries, i);
        let b = flatten(entries, j - 1);
        let c = flatten(entries, j);
        assert(c == b + entries[j - 1].1@);
        assert(a =~= c.subrange(0, a.len() as int)) by {
            assert(a =~= b.subrange(0, a.len() as int));
        }
    } else {
        assert(flatten(entries, i) =~= flatten(entries, j).subrange(
            0,
            flatten(entries, i).len() as int,
        ));
    }
}

/// All the bytes of the entries, one after the other.
spec fn flatten_all(entries: Seq<(&u32, &Vec<u8>)>) -> Seq<u8> {
    flatten(entries, entries.len() as int)
}

/// The fragments' bytes in ascending order of sequence number are what the
/// model assembles.
proof fn lemma_walk_assembles(m: &BTreeMap<u32, Vec<u8>>)
    requires
        increasing_seq(keys_of(spec_btree_map_iter(m).remaining())),
    ensures
        flatten_all(spec_btree_map_iter(m).remaining()) == assemble_below(
            segments_of(m@),
            sequence_space(),
        ),
{
    let v = spec_btree_map_iter(m).remaining();
    lemma_walks(m);
    lemma_flatten(v, m@, v.len() as int);
}

/// Appends the bytes of `data` to `out` as long as `out` is shorter than `n`.
fn append_head(out: &mut Vec<u8>, data: &Vec<u8>, n: usize)
    requires
        old(out)@.len() <= n,
    ensures
        final(out)@ == head_of(old(out)@ + data@, n as int),
{
    let mut j: usize = 0;
    assert(old(out)@ + data@.take(0) =~= old(out)@);
    while j < data.len() && out.len() < n
        invariant
            j <= data@.len(),
            out@.len() <= n,
            out@ == old(out)@ + data@.take(j as int),
        decreases data@.len() - j,
    {
        out.push(data[j]);
        assert(out@ =~= old(out)@ + data@.take(j + 1));
        j += 1;
    }
    proof {
        if j == data@.len() {
            assert(data@.take(j as int) =~= data@);
        } else {
            assert(out@ =~= (old(out)@ + data@).take(n as int));
        }
    }
}

/// The head of the bytes of the first `n` entries.
spec fn flatten_head(entries: Seq<(&u32, &Vec<u8>)>, n: int, limit: usize) -> Seq<u8> {
    head_of(flatten(entries, n), limit as int)
}

/// Once the head is full, more entries do not change it.
proof fn lemma_head_full(entries: Seq<(&u32, &Vec<u8>)>, i: int, tail: Seq<u8>, limit: usize)
    requires
        0 <= i <= entries.len(),
        flatten(entries, i).len() >= limit,
    ensures
        head_of(flatten_all(entries) + tail, limit as int) == flatten_head(entries, i, limit),
{
    lemma_flatten_prefix(entries, i, entries.len() as int);
    let part = flatten(entries, i);
    let all = flatten_all(entries);
    assert(part =~= all.subrange(0, part.len() as int));
    assert(head_of(all + tail, limit as int) =~= head_of(part, limit as int));
}

/// The buffer of one flow: its segments by sequence number and the bytes of
/// its datagrams.
pub struct FlowBuffer {
    fragments: BTreeMap<u32, Vec<u8>>,
    datagrams: Vec<u8>,
}

impl FlowBuffer {
    pub closed spec fn view(&self) -> FlowModel {
        FlowModel { segments: segments_of(self.fragments@), datagrams: self.datagrams@ }
    }

    /// A buffer that holds nothing.
    pub fn new() -> (b: FlowBuffer)
        ensures
            b@ == empty_flow(),
    {
        let b = FlowBuffer { fragments: BTreeMap::new(), datagrams: Vec::new() };
        assert(b@.segments =~= Map::<u32, Seq<u8>>::empty());
        b
    }

    /// Takes in one payload.
    pub fn accept(&mut self, seq: Option<u32>, payload: Vec<u8>)
        ensures
            final(self)@ == accept(old(self)@, seq, payload@),
    {
        broadcast use vstd::laws_cmp::group_laws_cmp;
        match seq {
            None => {
                self.datagrams.extend_from_slice(payload.as_slice());
                assert(self@.datagrams == old(self)@.datagrams + payload@);
                assert(self@.segments == old(self)@.segments);
            },
            Some(s) => {
                if s == 0 {
                    self.fragments.clear();
                    self.datagrams = Vec::new();
                }
                let ghost data = payload@;
                let ghost before = self@.segments;
                self.fragments.insert(s, payload);
                assert(self@.segments =~= before.insert(s, data));
                assert(s == 0 ==> before =~= Map::<u32, Seq<u8>>::empty());
            },
        }
    }

    /// The reassembled byte stream.
    pub fn stream(&self) -> (out: Vec<u8>)
        ensures
            out@ == stream_of(self@),
    {
        broadcast use vstd::laws_cmp::group_laws_cmp;
        let mut out: Vec<u8> = Vec::new();
        let entries = self.fragments.iter();
        proof {
            lemma_walk_assembles(&self.fragments);
        }
        for kv in it: entries
            invariant
                it.seq() == spec_btree_map_iter(&self.fragments).remaining(),
                out@ == flatten(it.seq(), it.index()),
        {
            out.extend_from_slice(kv.1.as_slice());
        }
        out.extend_from_slice(self.datagrams.as_slice());
        out
    }

    /// The first `n` bytes of the reassembled stream, or all of it where it has
    /// fewer. Reads no more of the buffer than it hands out.
    pub fn head(&self, n: usize) -> (out: Vec<u8>)
        ensures
            out@ == head_of(stream_of(self@), n as int),
    {
        let mut out: Vec<u8> = Vec::new();
        if n == 0 {
            assert(out@ =~= head_of(stream_of(self@), 0));
            return out;
        }
        let full = self.fill_head(&mut out, n);
        if !full {
            append_head(&mut out, &self.datagrams, n);
        }
        out
    }

    /// Fills `out` from the segments, in ascending order, until it holds `n`
    /// bytes; says whether it does.
    fn fill_head(&self, out: &mut Vec<u8>, n: usize) -> (full: bool)
        requires
            old(out)@.len() == 0,
            n > 0,
        ensures
            full ==> final(out)@ == head_of_stream(self@, n),
            !full ==> final(out)@ == assemble_below(self@.segments, sequence_space()),
            !full ==> final(out)@.len() < n,
    {
        broadcast use vstd::laws_cmp::group_laws_cmp;
        let entries = self.fragments.iter();
        proof {
            lemma_walk_assembles(&self.fragments);
        }
        for kv in it: entries
            invariant
                it.seq() == spec_btree_map_iter(&self.fragments).remaining(),
                flatten_all(it.seq()) == assemble_below(self@.segments, sequence_space()),
                out@ == flatten(it.seq(), it.index()),
                less(out@.len(), n),
        {
            append_head(out, kv.1, n);
            if out.len() >= n {
                proof {
                    lemma_head_full(it.seq(), it.index() + 1, self.datagrams@, n);
                }
                return true;
            }
        }
        false
    }
}

/// `a` is below `b`.
spec fn less(a: nat, b: usize) -> bool {
    a < b
}

/// The first `n` bytes of a flow's stream.
spec fn head_of_stream(buffer: FlowModel, n: usize) -> Seq<u8> {
    head_of(stream_of(buffer), n as int)
}

/// A flow with its buffer.
struct FlowEntry {
    key: FlowKey,
    buffer: FlowBuffer,
}

/// Buffers the payloads of every flow of a capture and gives back each flow's
/// byte stream. Flows are kept in the order in which their keys were first seen.
pub struct Reassembler {
    flows: Vec<FlowEntry>,
}

impl Reassembler {
    /// No key is held twice.
    pub closed spec fn wf(&self) -> bool {
        forall|i: int, j: int|
            0 <= i < j < self.flows@.len() ==> self.flows@[i].key != self.flows@[j].key
    }

    /// The flows in first-seen order.
    pub closed spec fn view(&self) -> Seq<FlowState> {
        Seq::new(
            self.flows@.len(),
            |i: int| FlowState { key: self.flows@[i].key, buffer: self.flows@[i].buffer@ },
        )
    }

    /// In a well-formed reassembler no key occurs twice.
    pub proof fn lemma_distinct_keys(&self)
        requires
            self.wf(),
        ensures
            distinct_keys(self@),
    {
    }

    /// A reassembler that knows no flow.
    pub fn new() -> (r: Reassembler)
        ensures
            r.wf(),
            r@ == Seq::<FlowState>::empty(),
    {
        let r = Reassembler { flows: Vec::new() };
        assert(r@ =~= Seq::<FlowState>::empty());
        r
    }

    /// The number of flows seen so far.
    pub fn flow_count(&self) -> (n: usize)
        ensures
            n == self@.len(),
    {
        self.flows.len()
    }

    /// Where `key` is held, if it is.
    fn position(&self, key: FlowKey) -> (r: Option<usize>)
        requires
            self.wf(),
        ensures
            match r {
                Some(i) => is_known(self@, key) && i == slot(self@, key) && i < self.flows@.len(),
                None => !is_known(self@, key),
            },
    {
        let mut i: usize = 0;
        while i < self.flows.len()
            invariant
                self.wf(),
                i <= self.flows@.len(),
                forall|j: int| 0 <= j < i ==> self@[j].key != key,
            decreases self.flows@.len() - i,
        {
            if self.flows[i].key == key {
                proof {
                    assert(self@[i as int].key == key);
                    let j = slot(self@, key);
                    assert(self@[j].key == key);
                    if j < i {
                        assert(self.flows@[j].key != self.flows@[i as int].key);
                    } else if i < j {
                        assert(self.flows@[i as int].key != self.flows@[j].key);
                    }
                }
                return Some(i);
            }
            i += 1;
        }
        None
    }

    /// Tests whether a payload for `key` has been taken in.
    pub fn knows(&self, key: FlowKey) -> (r: bool)
        requires
            self.wf(),
        ensures
            r == is_known(self@, key),
    {
        self.position(key).is_some()
    }

    /// Takes in one payload of the flow `key`: a segment with its sequence number,
    /// or a datagram without one.
    pub fn ingest(&mut self, key: FlowKey, seq: Option<u32>, payload: Vec<u8>)
        requires
            old(self).wf(),
        ensures
            final(self).wf(),
            final(self)@ == ingest_into(old(self)@, key, seq, payload@),
    {
        match self.position(key) {
            Some(i) => {
                self.flows[i].buffer.accept(seq, payload);
                assert(self.flows@.len() == old(self).flows@.len());
                assert(forall|j: int|
                    0 <= j < self.flows@.len() && j != i ==> self.flows@[j] == old(self).flows@[j]);
                assert(self.flows@[i as int].key == key);
                assert(self.wf());
                assert(self@ =~= ingest_into(old(self)@, key, seq, payload@));
            },
            None => {
                let mut buffer = FlowBuffer::new();
                buffer.accept(seq, payload);
                self.flows.push(FlowEntry { key, buffer });
                assert forall|a: int, b: int|
                    0 <= a < b < self.flows@.len() implies self.flows@[a].key
                    != self.flows@[b].key by {
                    if b == self.flows@.len() - 1 {
                        assert(old(self)@[a].key != key);
                    }
                }
                assert(self.wf());
                assert(self@ =~= ingest_into(old(self)@, key, seq, payload@));
            },
        }
    }

    /// The byte stream reassembled so far for `key`, if the key is known.
    pub fn stream(&self, key: FlowKey) -> (r: Option<Vec<u8>>)
        requires
            self.wf(),
        ensures
            match r {
                Some(bytes) => is_known(self@, key) && bytes@ == stream_of(buffer_of(self@, key)),
                None => !is_known(self@, key),
            },
    {
        match self.position(key) {
            Some(i) => Some(self.flows[i].buffer.stream()),
            None => None,
        }
    }

    /// The first `n` bytes of the stream reassembled so far for `key`, or all of
    /// it where it has fewer, if the key is known.
    pub fn head(&self, key: FlowKey, n: usize) -> (r: Option<Vec<u8>>)
        requires
            self.wf(),
        ensures
            match r {
                Some(bytes) => is_known(self@, key) && bytes@ == head_of(
                    stream_of(buffer_of(self@, key)),
                    n as int,
                ),
                None => !is_known(self@, key),
            },
    {
        match self.position(key) {
            Some(i) => Some(self.flows[i].buffer.head(n)),
            None => None,
        }
    }

    /// Empties the buffer of `key`, so that the next transfer on the same flow
    /// starts afresh. The key stays known.
    pub fn clear(&mut self, key: FlowKey)
        requires
            old(self).wf(),
        ensures
            final(self).wf(),
            final(self)@ == clear_in(old(self)@, key),
    {
        match self.position(key) {
            Some(i) => {
                self.flows[i].buffer = FlowBuffer::new();
                assert(self@ =~= clear_in(old(self)@, key));
            },
            None => {},
        }
    }

    /// Hands out every flow's key and byte stream, in first-seen order, and
    /// forgets all flows.
    pub fn drain(&mut self) -> (streams: Vec<(FlowKey, Vec<u8>)>)
        requires
            old(self).wf(),
        ensures
            final(self).wf(),
            final(self)@ == Seq::<FlowState>::empty(),
            streams@.len() == old(self)@.len(),
            forall|i: int|
                0 <= i < streams@.len() ==> (#[trigger] streams@[i]).0 == old(self)@[i].key
                    && streams@[i].1@ == stream_of(old(self)@[i].buffer),
    {
        let mut streams: Vec<(FlowKey, Vec<u8>)> = Vec::new();
        let mut i: usize = 0;
        while i < self.flows.len()
            invariant
                i <= self.flows@.len(),
                self.wf(),
                *self == *old(self),
                streams@.len() == i,
                forall|j: int|
                    0 <= j < i ==> (#[trigger] streams@[j]).0 == self@[j].key && streams@[j].1@
                        == stream_of(self@[j].buffer),
            decreases self.flows@.len() - i,
        {
            let bytes = self.flows[i].buffer.stream();
            streams.push((self.flows[i].key, bytes));
            i += 1;
        }
        self.flows = Vec::new();
        assert(self@ =~= Seq::<FlowState>::empty());
        streams
    }
}

} // verus!
