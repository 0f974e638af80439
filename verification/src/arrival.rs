//! Laws of reassembly: what a flow holds after its segments have arrived does
//! not depend on the order of their arrival, a segment with sequence number zero
//! starts the flow afresh, and flows do not mix.

use crate::flow::{
    accept, assemble_below, buffer_of, distinct_keys, empty_flow, ingest_into, is_known,
    lemma_assemble_gap, sequence_space, slot, stream_of, FlowKey, FlowModel, FlowState,
};
use vstd::prelude::*;

verus! {

/// The buffer after a run of segments, each a sequence number with its payload,
/// taken in the order given.
pub open spec fn accept_all(buffer: FlowModel, segments: Seq<(u32, Seq<u8>)>) -> FlowModel
    decreases segments.len(),
{
    if segments.len() == 0 {
        buffer
    } else {
        accept(
            accept_all(buffer, segments.drop_last()),
            Some(segments.last().0),
            segments.last().1,
        )
    }
}

/// The flows after a run of segments of the flow `key`, taken in the order given.
pub open spec fn ingest_all(
    flows: Seq<FlowState>,
    key: FlowKey,
    segments: Seq<(u32, Seq<u8>)>,
) -> Seq<FlowState>
    decreases segments.len(),
{
    if segments.len() == 0 {
        flows
    } else {
        ingest_into(
            ingest_all(flows, key, segments.drop_last()),
            key,
            Some(segments.last().0),
            segments.last().1,
        )
    }
}

/// Sequence number zero occurs in `segments` at the front or not at all.
pub open spec fn zero_only_first(segments: Seq<(u32, Seq<u8>)>) -> bool {
    forall|i: int| 0 < i < segments.len() ==> segments[i].0 != 0
}

/// No two of `segments` have the same sequence number.
pub open spec fn distinct_sequence_numbers(segments: Seq<(u32, Seq<u8>)>) -> bool {
    forall|i: int, j: int| 0 <= i < j < segments.len() ==> segments[i].0 != segments[j].0
}

/// What a run of segments builds on: nothing when the run opens with sequence
/// number zero, else the buffer as it was.
spec fn base_of(buffer: FlowModel, segments: Seq<(u32, Seq<u8>)>) -> FlowModel {
    if segments.len() > 0 && segments[0].0 == 0 {
        empty_flow()
    } else {
        buffer
    }
}

/// `segments` holds a segment with sequence number `k`.
spec fn carries(segments: Seq<(u32, Seq<u8>)>, k: u32) -> bool {
    exists|i: int| 0 <= i < segments.len() && segments[i].0 == k
}

/// `segments` holds a segment with sequence number `k` and payload `data`.
spec fn carries_payload(segments: Seq<(u32, Seq<u8>)>, k: u32, data: Seq<u8>) -> bool {
    exists|i: int| 0 <= i < segments.len() && segments[i].0 == k && segments[i].1 == data
}

/// After a run in which only the first segment may have sequence number zero, the
/// buffer holds the base's datagrams, a segment of the run under each sequence
/// number of the run, and the base's segments under all others.
proof fn lemma_accept_all(buffer: FlowModel, segments: Seq<(u32, Seq<u8>)>)
    requires
        zero_only_first(segments),
    ensures
        accept_all(buffer, segments).datagrams == base_of(buffer, segments).datagrams,
        forall|k: u32|
            accept_all(buffer, segments).segments.dom().contains(k) <==> carries(segments, k)
                || base_of(buffer, segments).segments.dom().contains(k),
        forall|k: u32| #[trigger]
            carries(segments, k) ==> carries_payload(
                segments,
                k,
                accept_all(buffer, segments).segments[k],
            ),
        forall|k: u32|
            !carries(segments, k) ==> accept_all(buffer, segments).segments[k] == base_of(
                buffer,
                segments,
            ).segments[k],
    decreases segments.len(),
{
    if segments.len() > 0 {
        let head = segments.drop_last();
        let s = segments.last().0;
        let data = segments.last().1;
        lemma_accept_all(buffer, head);
        let before = accept_all(buffer, head);
        let after = accept_all(buffer, segments);
        assert(after == accept(before, Some(s), data));
        assert(segments[segments.len() - 1].0 == s);
        if head.len() == 0 {
            assert(forall|k: u32| !carries(head, k));
            assert(forall|k: u32| carries(segments, k) <==> k == s);
            assert(carries_payload(segments, s, data)) by {
                assert(segments[0].0 == s && segments[0].1 == data);
            }
        } else {
            assert(s != 0);
            assert(head[0] == segments[0]);
            assert(base_of(buffer, head) == base_of(buffer, segments));
            assert forall|k: u32| carries(segments, k) <==> (carries(head, k) || k == s) by {
                if carries(head, k) {
                    let i = choose|i: int| 0 <= i < head.len() && head[i].0 == k;
                    assert(segments[i].0 == k);
                }
                if carries(segments, k) && k != s {
                    let i = choose|i: int| 0 <= i < segments.len() && segments[i].0 == k;
                    assert(head[i].0 == k);
                }
            }
            assert forall|k: u32| #[trigger] carries(segments, k) implies carries_payload(
                segments,
                k,
                after.segments[k],
            ) by {
                if k == s {
                    assert(segments[segments.len() - 1].1 == data);
                } else {
                    assert(carries_payload(head, k, before.segments[k]));
                    let i = choose|i: int|
                        0 <= i < head.len() && head[i].0 == k && head[i].1 == before.segments[k];
                    assert(segments[i] == head[i]);
                }
            }
        }
    } else {
        assert(forall|k: u32| !carries(segments, k));
    }
}

/// Reassembly does not depend on the order of arrival: two runs of the same
/// segments with distinct sequence numbers, in which sequence number zero comes
/// first if it comes at all, leave the same buffer and so the same byte stream.
pub proof fn lemma_reassembly_order_independent(
    buffer: FlowModel,
    a: Seq<(u32, Seq<u8>)>,
    b: Seq<(u32, Seq<u8>)>,
)
    requires
        a.to_multiset() == b.to_multiset(),
        distinct_sequence_numbers(a),
        zero_only_first(a),
        zero_only_first(b),
    ensures
        accept_all(buffer, a) == accept_all(buffer, b),
        stream_of(accept_all(buffer, a)) == stream_of(accept_all(buffer, b)),
{
    a.to_multiset_ensures();
    b.to_multiset_ensures();
    assert(a.len() == b.len());
    assert forall|i: int| 0 <= i < a.len() implies b.contains(#[trigger] a[i]) by {
        assert(a.contains(a[i]));
        assert(a.to_multiset().count(a[i]) > 0);
        assert(b.to_multiset().count(a[i]) > 0);
    }
    assert forall|j: int| 0 <= j < b.len() implies a.contains(#[trigger] b[j]) by {
        assert(b.contains(b[j]));
        assert(b.to_multiset().count(b[j]) > 0);
        assert(a.to_multiset().count(b[j]) > 0);
    }
    lemma_accept_all(buffer, a);
    lemma_accept_all(buffer, b);
    let ra = accept_all(buffer, a);
    let rb = accept_all(buffer, b);
    assert(base_of(buffer, a) == base_of(buffer, b)) by {
        if a.len() > 0 {
            if a[0].0 == 0 {
                assert(b.contains(a[0]));
                let j = choose|j: int| 0 <= j < b.len() && b[j] == a[0];
                assert(j == 0);
            }
            if b[0].0 == 0 {
                assert(a.contains(b[0]));
                let i = choose|i: int| 0 <= i < a.len() && a[i] == b[0];
                assert(i == 0);
            }
        }
    }
    assert forall|k: u32| carries(a, k) <==> carries(b, k) by {
        if carries(a, k) {
            let i = choose|i: int| 0 <= i < a.len() && a[i].0 == k;
            assert(b.contains(a[i]));
            let j = choose|j: int| 0 <= j < b.len() && b[j] == a[i];
            assert(b[j].0 == k);
        }
        if carries(b, k) {
            let j = choose|j: int| 0 <= j < b.len() && b[j].0 == k;
            assert(a.contains(b[j]));
            let i = choose|i: int| 0 <= i < a.len() && a[i] == b[j];
            assert(a[i].0 == k);
        }
    }
    assert forall|k: u32| ra.segments.dom().contains(k) implies ra.segments[k]
        == rb.segments[k] by {
        if carries(a, k) {
            assert(carries_payload(a, k, ra.segments[k]));
            assert(carries_payload(b, k, rb.segments[k]));
            let i = choose|i: int| 0 <= i < a.len() && a[i].0 == k && a[i].1 == ra.segments[k];
            let j = choose|j: int| 0 <= j < b.len() && b[j].0 == k && b[j].1 == rb.segments[k];
            assert(a.contains(b[j]));
            let i2 = choose|i2: int| 0 <= i2 < a.len() && a[i2] == b[j];
            assert(a[i2].0 == a[i].0);
            assert(i2 == i);
        } else {
            assert(!carries(b, k));
            assert(ra.segments[k] == base_of(buffer, a).segments[k]);
            assert(rb.segments[k] == base_of(buffer, b).segments[k]);
        }
    }
    assert forall|k: u32| ra.segments.dom().contains(k) <==> rb.segments.dom().contains(k) by {
        assert(carries(a, k) <==> carries(b, k));
    }
    assert(ra.segments =~= rb.segments);
}

/// The flows after a payload for `key` hold, for that key, the buffer that
/// accepted it; every key stays where it was.
pub proof fn lemma_ingest_buffer(
    flows: Seq<FlowState>,
    key: FlowKey,
    seq: Option<u32>,
    payload: Seq<u8>,
)
    requires
        distinct_keys(flows),
    ensures
        distinct_keys(ingest_into(flows, key, seq, payload)),
        is_known(ingest_into(flows, key, seq, payload), key),
        buffer_of(ingest_into(flows, key, seq, payload), key) == accept(
            buffer_of(flows, key),
            seq,
            payload,
        ),
{
    let next = ingest_into(flows, key, seq, payload);
    let at = if is_known(flows, key) {
        slot(flows, key)
    } else {
        flows.len() as int
    };
    assert(next[at].key == key);
    assert forall|i: int, j: int| 0 <= i < j < next.len() implies next[i].key != next[j].key by {
        if j < flows.len() {
            assert(flows[i].key != flows[j].key);
        } else {
            assert(flows[i].key != key);
        }
    }
    let found = slot(next, key);
    assert(next[found].key == key);
    if found < at {
        assert(next[found].key != next[at].key);
    } else if at < found {
        assert(next[at].key != next[found].key);
    }
}

/// A run of segments of one flow leaves, for that flow, the buffer that accepted
/// the run.
pub proof fn lemma_ingest_all_buffer(
    flows: Seq<FlowState>,
    key: FlowKey,
    segments: Seq<(u32, Seq<u8>)>,
)
    requires
        distinct_keys(flows),
    ensures
        distinct_keys(ingest_all(flows, key, segments)),
        buffer_of(ingest_all(flows, key, segments), key) == accept_all(
            buffer_of(flows, key),
            segments,
        ),
    decreases segments.len(),
{
    if segments.len() > 0 {
        lemma_ingest_all_buffer(flows, key, segments.drop_last());
        lemma_ingest_buffer(
            ingest_all(flows, key, segments.drop_last()),
            key,
            Some(segments.last().0),
            segments.last().1,
        );
    }
}

/// No segment but one with sequence number zero carries any bytes.
pub open spec fn only_zero_speaks(segments: Seq<(u32, Seq<u8>)>) -> bool {
    forall|i: int|
        0 <= i < segments.len() && segments[i].0 != 0 ==> (#[trigger] segments[i]).1.len() == 0
}

/// The bytes that a map of segments holds under a sequence number; none where it
/// holds no segment.
spec fn bytes_at(segments: Map<u32, Seq<u8>>, k: u32) -> Seq<u8> {
    if segments.dom().contains(k) {
        segments[k]
    } else {
        Seq::empty()
    }
}

/// Maps of segments that hold the same bytes under every sequence number
/// assemble to the same stream.
proof fn lemma_assemble_same_bytes(a: Map<u32, Seq<u8>>, b: Map<u32, Seq<u8>>, bound: nat)
    requires
        bound <= sequence_space(),
        forall|k: u32| bytes_at(a, k) == bytes_at(b, k),
    ensures
        assemble_below(a, bound) == assemble_below(b, bound),
    decreases bound,
{
    if bound > 0 {
        lemma_assemble_same_bytes(a, b, (bound - 1) as nat);
        let k = (bound - 1) as u32;
        assert(bytes_at(a, k) == bytes_at(b, k));
        let lower = assemble_below(a, (bound - 1) as nat);
        assert(lower + Seq::<u8>::empty() =~= lower);
    }
}

/// After a run that holds a segment with sequence number zero and in which no
/// other segment carries bytes, the flow's stream is the payload of that
/// segment.
proof fn lemma_zero_alone(buffer: FlowModel, segments: Seq<(u32, Seq<u8>)>, payload: Seq<u8>)
    requires
        only_zero_speaks(segments),
        carries(segments, 0),
        forall|i: int| 0 <= i < segments.len() && segments[i].0 == 0 ==> segments[i].1 == payload,
    ensures
        accept_all(buffer, segments).datagrams == Seq::<u8>::empty(),
        forall|k: u32|
            bytes_at(accept_all(buffer, segments).segments, k) == if k == 0 {
                payload
            } else {
                Seq::empty()
            },
        stream_of(accept_all(buffer, segments)) == payload,
    decreases segments.len(),
{
    let head = segments.drop_last();
    let last = segments.last();
    let after = accept_all(buffer, segments);
    let n = segments.len() - 1;
    assert(segments[n] == last);
    if last.0 == 0 {
        assert(last.1 == payload);
        assert(after.segments =~= Map::<u32, Seq<u8>>::empty().insert(0u32, payload));
    } else {
        assert(carries(head, 0)) by {
            let i = choose|i: int| 0 <= i < segments.len() && segments[i].0 == 0;
            assert(head[i].0 == 0);
        }
        assert forall|i: int| 0 <= i < head.len() && head[i].0 != 0 implies (
        #[trigger] head[i]).1.len() == 0 by {
            assert(segments[i] == head[i]);
        }
        assert forall|i: int| 0 <= i < head.len() && head[i].0 == 0 implies head[i].1
            == payload by {
            assert(segments[i] == head[i]);
        }
        lemma_zero_alone(buffer, head, payload);
        let before = accept_all(buffer, head);
        assert(last.1 =~= Seq::<u8>::empty());
        assert forall|k: u32| bytes_at(after.segments, k) == if k == 0 {
            payload
        } else {
            Seq::empty()
        } by {
            assert(bytes_at(before.segments, k) == if k == 0 {
                payload
            } else {
                Seq::<u8>::empty()
            });
        }
    }
    let alone = accept(buffer, Some(0u32), payload);
    lemma_sequence_zero_resets(buffer, payload);
    assert forall|k: u32| bytes_at(after.segments, k) == bytes_at(alone.segments, k) by {
        assert(bytes_at(after.segments, k) == if k == 0 {
            payload
        } else {
            Seq::<u8>::empty()
        });
    }
    lemma_assemble_same_bytes(after.segments, alone.segments, sequence_space());
    assert(stream_of(after) =~= stream_of(alone));
}

/// The byte stream of a flow does not depend on the order in which its segments
/// arrive. Two runs of the same segments with distinct sequence numbers leave
/// the same stream, provided that sequence number zero, which starts the flow
/// afresh, comes first in both runs if it comes at all, or that no segment but
/// the one with sequence number zero carries any bytes.
pub proof fn lemma_buffer_order_independent(
    buffer: FlowModel,
    a: Seq<(u32, Seq<u8>)>,
    b: Seq<(u32, Seq<u8>)>,
)
    requires
        a.to_multiset() == b.to_multiset(),
        distinct_sequence_numbers(a),
        (zero_only_first(a) && zero_only_first(b)) || only_zero_speaks(a),
    ensures
        stream_of(accept_all(buffer, a)) == stream_of(accept_all(buffer, b)),
{
    a.to_multiset_ensures();
    b.to_multiset_ensures();
    assert forall|i: int| 0 <= i < a.len() implies b.contains(#[trigger] a[i]) by {
        assert(a.contains(a[i]));
        assert(a.to_multiset().count(a[i]) > 0);
        assert(b.to_multiset().count(a[i]) > 0);
    }
    assert forall|j: int| 0 <= j < b.len() implies a.contains(#[trigger] b[j]) by {
        assert(b.contains(b[j]));
        assert(b.to_multiset().count(b[j]) > 0);
        assert(a.to_multiset().count(b[j]) > 0);
    }
    if carries(a, 0) && only_zero_speaks(a) {
        let z = choose|i: int| 0 <= i < a.len() && a[i].0 == 0;
        let payload = a[z].1;
        assert forall|j: int| 0 <= j < b.len() implies (b[j].0 == 0 ==> b[j].1 == payload) && (
        b[j].0 != 0 ==> (#[trigger] b[j]).1.len() == 0) by {
            assert(a.contains(b[j]));
            let i = choose|i: int| 0 <= i < a.len() && a[i] == b[j];
            if b[j].0 == 0 && i != z {
                if i < z {
                    assert(a[i].0 != a[z].0);
                } else {
                    assert(a[z].0 != a[i].0);
                }
            }
        }
        assert forall|i: int| 0 <= i < a.len() && a[i].0 == 0 implies a[i].1 == payload by {
            if i < z {
                assert(a[i].0 != a[z].0);
            } else if z < i {
                assert(a[z].0 != a[i].0);
            }
        }
        assert(carries(b, 0)) by {
            assert(b.contains(a[z]));
            let j = choose|j: int| 0 <= j < b.len() && b[j] == a[z];
            assert(b[j].0 == 0);
        }
        lemma_zero_alone(buffer, a, payload);
        lemma_zero_alone(buffer, b, payload);
    } else {
        if !carries(a, 0) {
            assert forall|j: int| 0 < j < b.len() implies b[j].0 != 0 by {
                assert(a.contains(b[j]));
                let i = choose|i: int| 0 <= i < a.len() && a[i] == b[j];
                assert(a[i].0 == b[j].0);
            }
        }
        lemma_reassembly_order_independent(buffer, a, b);
    }
}

/// Whatever the reassembler held before, the byte stream of a flow is the same
/// after its segments have arrived in either of two orders. The sequence numbers
/// are distinct; sequence number zero, which starts the flow afresh, came first
/// in both orders if it came at all, or no segment but the one with sequence
/// number zero carried any bytes.
pub proof fn lemma_stream_order_independent(
    flows: Seq<FlowState>,
    key: FlowKey,
    a: Seq<(u32, Seq<u8>)>,
    b: Seq<(u32, Seq<u8>)>,
)
    requires
        distinct_keys(flows),
        a.to_multiset() == b.to_multiset(),
        distinct_sequence_numbers(a),
        (zero_only_first(a) && zero_only_first(b)) || only_zero_speaks(a),
    ensures
        stream_of(buffer_of(ingest_all(flows, key, a), key)) == stream_of(
            buffer_of(ingest_all(flows, key, b), key),
        ),
{
    lemma_ingest_all_buffer(flows, key, a);
    lemma_ingest_all_buffer(flows, key, b);
    lemma_buffer_order_independent(buffer_of(flows, key), a, b);
}

/// Sequence number zero starts a flow afresh: after a segment with sequence
/// number zero the flow's stream is that segment's payload and nothing else,
/// whatever was buffered before.
pub proof fn lemma_sequence_zero_resets(buffer: FlowModel, payload: Seq<u8>)
    ensures
        stream_of(accept(buffer, Some(0u32), payload)) == payload,
{
    let after = accept(buffer, Some(0u32), payload);
    assert(after.segments =~= Map::<u32, Seq<u8>>::empty().insert(0u32, payload));
    assert forall|k: u32| 1 <= k < sequence_space() implies !after.segments.dom().contains(k) by {}
    lemma_assemble_gap(after.segments, 1, sequence_space());
    assert(assemble_below(after.segments, 0) == Seq::<u8>::empty());
    assert(assemble_below(after.segments, 1) == assemble_below(after.segments, 0)
        + after.segments[0u32]);
    assert(stream_of(after) =~= payload);
}

/// Flows do not mix: a payload for one key leaves what is buffered for every
/// other key as it was.
pub proof fn lemma_ingest_leaves_other_flows(
    flows: Seq<FlowState>,
    key: FlowKey,
    seq: Option<u32>,
    payload: Seq<u8>,
    other: FlowKey,
)
    requires
        distinct_keys(flows),
        other != key,
    ensures
        is_known(ingest_into(flows, key, seq, payload), other) == is_known(flows, other),
        buffer_of(ingest_into(flows, key, seq, payload), other) == buffer_of(flows, other),
{
    let next = ingest_into(flows, key, seq, payload);
    lemma_ingest_buffer(flows, key, seq, payload);
    if is_known(flows, other) {
        let at = slot(flows, other);
        assert(next[at].key == other);
        let found = slot(next, other);
        assert(next[found].key == other);
        if found < at {
            assert(next[found].key != next[at].key);
        } else if at < found {
            assert(next[at].key != next[found].key);
        }
    } else if is_known(next, other) {
        let found = slot(next, other);
        assert(next[found].key == other);
        if found < flows.len() {
            assert(flows[found].key == other);
        }
    }
}

} // verus!
