//! Produce: record batches addressed to topic partitions, the log writes
//! they call for, and the per-partition answer.
use vstd::prelude::*;
use crate::codec::{
    lemma_bytes_at_concat, lemma_concat_map_item, bytes_at, bytes_eq, compact_array, compact_bytes, compact_count, concat_map, copy_range,
    get_compact_bytes, get_compact_count, get_i16, get_i32, get_nullable_compact_bytes, get_u8,
    i16_bytes, i32_bytes, i64_bytes, lemma_concat_map_push, nullable_compact_bytes,
    put_compact_bytes, put_compact_count, put_i16, put_i32, put_i64, put_u8,
};
use crate::frame::{Request, RequestHeader, opt_view};
use crate::metadata::{MetadataStore, TopicModel, first_named, has_partition, lemma_split};

verus! {

/// Record batches for one partition.
#[derive(Debug)]
pub struct Partition {
    pub index: i32,
    pub record_batches: Option<Vec<u8>>,
}

#[derive(Debug)]
pub struct ProduceTopic {
    pub name: Vec<u8>,
    pub partitions: Vec<Partition>,
}

#[derive(Debug)]
pub struct ProduceRequest {
    pub header: RequestHeader,
    pub transactional_id: Option<Vec<u8>>,
    pub required_acknowledgements: i16,
    pub timeout: i32,
    pub topics: Vec<ProduceTopic>,
}

pub open spec fn produce_partition_item() -> spec_fn(Partition) -> Seq<u8> {
    |p: Partition| i32_bytes(p.index) + nullable_compact_bytes(opt_view(p.record_batches)) + seq![0u8]
}

pub open spec fn produce_topic_bytes(t: ProduceTopic) -> Seq<u8> {
    compact_bytes(t.name@) + compact_array(t.partitions@, produce_partition_item())
}

pub open spec fn produce_topic_item() -> spec_fn(ProduceTopic) -> Seq<u8> {
    |t: ProduceTopic| produce_topic_bytes(t)
}

/// Two partitions with the same index and batches.
pub open spec fn partition_same(a: Partition, p: Partition) -> bool {
    a.index == p.index && opt_view(a.record_batches) == opt_view(p.record_batches)
}

pub open spec fn partition_fits(p: Partition) -> bool {
    match p.record_batches {
        Some(v) => v@.len() < u32::MAX,
        None => true,
    }
}

pub open spec fn partitions_same(a: Seq<Partition>, p: Seq<Partition>) -> bool {
    a.len() == p.len() && forall|k: int| 0 <= k < a.len() ==> #[trigger] partition_same(a[k], p[k])
}

pub open spec fn partitions_fit(ps: Seq<Partition>) -> bool {
    ps.len() < u32::MAX && forall|k: int| 0 <= k < ps.len() ==> #[trigger] partition_fits(ps[k])
}

pub open spec fn topic_same(a: ProduceTopic, t: ProduceTopic) -> bool {
    a.name@ == t.name@ && partitions_same(a.partitions@, t.partitions@)
}

pub open spec fn topic_fits(t: ProduceTopic) -> bool {
    t.name@.len() < u32::MAX && partitions_fit(t.partitions@)
}

pub open spec fn topics_same(a: Seq<ProduceTopic>, t: Seq<ProduceTopic>) -> bool {
    a.len() == t.len() && forall|k: int| 0 <= k < a.len() ==> #[trigger] topic_same(a[k], t[k])
}

pub open spec fn topics_fit(ts: Seq<ProduceTopic>) -> bool {
    ts.len() < u32::MAX && forall|k: int| 0 <= k < ts.len() ==> #[trigger] topic_fits(ts[k])
}

/// Equal fields give equal encodings.
proof fn lemma_partitions_same_bytes(a: Seq<Partition>, p: Seq<Partition>)
    requires
        partitions_same(a, p),
    ensures
        concat_map(a, produce_partition_item()) == concat_map(p, produce_partition_item()),
    decreases a.len(),
{
    if a.len() > 0 {
        assert(partition_same(a[a.len() - 1], p[p.len() - 1]));
        assert forall|k: int| 0 <= k < a.drop_last().len() implies #[trigger] partition_same(a.drop_last()[k], p.drop_last()[k]) by {
            assert(partition_same(a[k], p[k]));
        }
        lemma_partitions_same_bytes(a.drop_last(), p.drop_last());
    }
}

/// The arrays and strings of a request fit their count prefixes.
pub open spec fn produce_request_fits(x: ProduceRequest) -> bool {
    topics_fit(x.topics@) && (x.transactional_id matches Some(v) ==> v@.len() < u32::MAX)
}

/// The request payload.
pub open spec fn produce_request_bytes(r: ProduceRequest) -> Seq<u8> {
    nullable_compact_bytes(opt_view(r.transactional_id)) + i16_bytes(r.required_acknowledgements)
        + i32_bytes(r.timeout) + compact_array(r.topics@, produce_topic_item()) + seq![0u8]
}

fn get_produce_partition(b: &[u8], pos: usize) -> (r: Option<(Partition, usize)>)
    ensures
        r matches Some((p, q)) ==> pos <= q <= b@.len() && b@.subrange(pos as int, q as int)
            == (produce_partition_item())(p),
        forall|x: Partition|
            partition_fits(x) && #[trigger] bytes_at(b@, pos as int, (produce_partition_item())(x)) ==> (r matches Some((u, q))
                && partition_same(u, x) && q == pos + (produce_partition_item())(x).len()),
{
    proof {
        assert forall|x: Partition|
            partition_fits(x) && #[trigger] bytes_at(b@, pos as int, (produce_partition_item())(x)) implies
            bytes_at(b@, pos as int, i32_bytes(x.index)) && bytes_at(b@, pos + 4, nullable_compact_bytes(opt_view(x.record_batches)))
            && bytes_at(b@, pos + 4 + nullable_compact_bytes(opt_view(x.record_batches)).len(), seq![0u8])
            && (x.record_batches is None ==> b@[pos + 4] == 0) by {
            let n = nullable_compact_bytes(opt_view(x.record_batches));
            lemma_bytes_at_concat(b@, pos as int, i32_bytes(x.index) + n, seq![0u8]);
            lemma_bytes_at_concat(b@, pos as int, i32_bytes(x.index), n);
            if x.record_batches is None {
                assert(b@.subrange(pos + 4, pos + 5)[0] == b@[pos + 4]);
            }
        }
    }
    let (index, p1) = get_i32(b, pos)?;
    let (record_batches, p2) = get_nullable_compact_bytes(b, p1)?;
    let (tag, p3) = get_u8(b, p2)?;
    if tag != 0 {
        return None;
    }
    proof {
        lemma_split(b@, pos as int, p1 as int, p2 as int);
        lemma_split(b@, pos as int, p2 as int, p3 as int);
        assert(b@.subrange(p2 as int, p3 as int) =~= seq![0u8]);
    }
    Some((Partition { index, record_batches }, p3))
}

fn get_produce_topic(b: &[u8], pos: usize) -> (r: Option<(ProduceTopic, usize)>)
    ensures
        r matches Some((t, q)) ==> pos <= q <= b@.len() && b@.subrange(pos as int, q as int)
            == produce_topic_bytes(t),
        forall|x: ProduceTopic|
            topic_fits(x) && #[trigger] bytes_at(b@, pos as int, produce_topic_bytes(x)) ==> (r matches Some((u, q))
                && topic_same(u, x) && q == pos + produce_topic_bytes(x).len()),
{
    let ghost f = produce_partition_item();
    proof {
        assert forall|x: ProduceTopic|
            topic_fits(x) && #[trigger] bytes_at(b@, pos as int, produce_topic_bytes(x)) implies
            bytes_at(b@, pos as int, compact_bytes(x.name@)) && bytes_at(
                b@,
                pos + compact_bytes(x.name@).len(),
                compact_count(x.partitions@.len()),
            ) && bytes_at(
                b@,
                pos + compact_bytes(x.name@).len() + compact_count(x.partitions@.len()).len(),
                concat_map(x.partitions@, f),
            ) by {
            lemma_bytes_at_concat(b@, pos as int, compact_bytes(x.name@), compact_array(x.partitions@, f));
            lemma_bytes_at_concat(
                b@,
                pos + compact_bytes(x.name@).len(),
                compact_count(x.partitions@.len()),
                concat_map(x.partitions@, f),
            );
        }
    }
    let (name, p1) = get_compact_bytes(b, pos)?;
    let (n, q) = get_compact_count(b, p1)?;
    let mut partitions: Vec<Partition> = Vec::new();
    let mut p = q;
    let mut i: u32 = 0;
    while i < n
        invariant
            p1 < q <= p <= b@.len(),
            b@.subrange(p1 as int, q as int) == compact_count(n as nat),
            partitions@.len() == i,
            i <= n,
            f == produce_partition_item(),
            b@.subrange(q as int, p as int) == concat_map(partitions@, f),
            forall|x: ProduceTopic|
                topic_fits(x) && #[trigger] bytes_at(b@, pos as int, produce_topic_bytes(x)) ==> x.name@
                    == name@ && p1 == pos + compact_bytes(x.name@).len() && x.partitions@.len() == n && q == p1
                    + compact_count(x.partitions@.len()).len() && bytes_at(b@, q as int, concat_map(x.partitions@, f))
                    && partitions_same(partitions@, x.partitions@.subrange(0, i as int)) && p == q
                    + concat_map(x.partitions@.subrange(0, i as int), f).len(),
        decreases n - i,
    {
        proof {
            assert forall|x: ProduceTopic|
                topic_fits(x) && #[trigger] bytes_at(b@, pos as int, produce_topic_bytes(x)) implies
                bytes_at(b@, p as int, f(x.partitions@[i as int])) && partition_fits(x.partitions@[i as int]) by {
                lemma_concat_map_item(b@, q as int, x.partitions@, f, i as int);
            }
        }
        let (part, p2) = match get_produce_partition(b, p) {
            Some(x) => x,
            None => {
                proof {
                    assert forall|x: ProduceTopic|
                        topic_fits(x) && #[trigger] bytes_at(b@, pos as int, produce_topic_bytes(x)) implies false by {
                        assert(bytes_at(b@, p as int, f(x.partitions@[i as int])));
                    }
                }
                return None;
            },
        };
        proof {
            lemma_concat_map_push(partitions@, part, f);
            lemma_split(b@, q as int, p as int, p2 as int);
        }
        let ghost before = partitions@;
        partitions.push(part);
        proof {
            assert forall|x: ProduceTopic|
                topic_fits(x) && #[trigger] bytes_at(b@, pos as int, produce_topic_bytes(x)) implies
                partitions_same(partitions@, x.partitions@.subrange(0, i + 1)) && p2 == q + concat_map(
                    x.partitions@.subrange(0, i + 1),
                    f,
                ).len() by {
                assert(bytes_at(b@, p as int, f(x.partitions@[i as int])));
                lemma_concat_map_item(b@, q as int, x.partitions@, f, i as int);
                assert forall|k: int| 0 <= k < i + 1 implies #[trigger] partition_same(partitions@[k], x.partitions@.subrange(0, i + 1)[k]) by {
                    if k < i {
                        assert(partition_same(before[k], x.partitions@.subrange(0, i as int)[k]));
                    }
                }
            }
        }
        p = p2;
        i += 1;
    }
    proof {
        lemma_split(b@, p1 as int, q as int, p as int);
        lemma_split(b@, pos as int, p1 as int, p as int);
        assert forall|x: ProduceTopic|
            topic_fits(x) && #[trigger] bytes_at(b@, pos as int, produce_topic_bytes(x)) implies
            partitions_same(partitions@, x.partitions@) && p == pos + produce_topic_bytes(x).len() by {
            assert(x.partitions@.subrange(0, i as int) =~= x.partitions@);
        }
    }
    Some((ProduceTopic { name, partitions }, p))
}

fn get_produce_topics(b: &[u8], pos: usize) -> (r: Option<(Vec<ProduceTopic>, usize)>)
    ensures
        r matches Some((ts, q)) ==> pos <= q <= b@.len() && b@.subrange(pos as int, q as int)
            == compact_array(ts@, produce_topic_item()),
        forall|xs: Seq<ProduceTopic>|
            topics_fit(xs) && #[trigger] bytes_at(b@, pos as int, compact_array(xs, produce_topic_item())) ==> (r matches Some((u, q))
                && topics_same(u@, xs) && q == pos + compact_array(xs, produce_topic_item()).len()),
{
    let ghost f = produce_topic_item();
    proof {
        assert forall|xs: Seq<ProduceTopic>|
            topics_fit(xs) && #[trigger] bytes_at(b@, pos as int, compact_array(xs, f)) implies
            bytes_at(b@, pos as int, compact_count(xs.len())) && bytes_at(
                b@,
                pos + compact_count(xs.len()).len(),
                concat_map(xs, f),
            ) by {
            lemma_bytes_at_concat(b@, pos as int, compact_count(xs.len()), concat_map(xs, f));
        }
    }
    let (n, q) = get_compact_count(b, pos)?;
    let mut topics: Vec<ProduceTopic> = Vec::new();
    let mut p = q;
    let mut i: u32 = 0;
    while i < n
        invariant
            pos < q <= p <= b@.len(),
            b@.subrange(pos as int, q as int) == compact_count(n as nat),
            topics@.len() == i,
            i <= n,
            f == produce_topic_item(),
            b@.subrange(q as int, p as int) == concat_map(topics@, f),
            forall|xs: Seq<ProduceTopic>|
                topics_fit(xs) && #[trigger] bytes_at(b@, pos as int, compact_array(xs, f)) ==> xs.len() == n
                    && q == pos + compact_count(xs.len()).len() && bytes_at(b@, q as int, concat_map(xs, f))
                    && topics_same(topics@, xs.subrange(0, i as int)) && p == q + concat_map(
                    xs.subrange(0, i as int),
                    f,
                ).len(),
        decreases n - i,
    {
        proof {
            assert forall|xs: Seq<ProduceTopic>|
                topics_fit(xs) && #[trigger] bytes_at(b@, pos as int, compact_array(xs, f)) implies
                bytes_at(b@, p as int, produce_topic_bytes(xs[i as int])) && topic_fits(xs[i as int]) by {
                lemma_concat_map_item(b@, q as int, xs, f, i as int);
            }
        }
        let (t, p2) = match get_produce_topic(b, p) {
            Some(x) => x,
            None => {
                proof {
                    assert forall|xs: Seq<ProduceTopic>|
                        topics_fit(xs) && #[trigger] bytes_at(b@, pos as int, compact_array(xs, f)) implies false by {
                        assert(bytes_at(b@, p as int, produce_topic_bytes(xs[i as int])));
                    }
                }
                return None;
            },
        };
        proof {
            lemma_concat_map_push(topics@, t, f);
            lemma_split(b@, q as int, p as int, p2 as int);
        }
        let ghost before = topics@;
        topics.push(t);
        proof {
            assert forall|xs: Seq<ProduceTopic>|
                topics_fit(xs) && #[trigger] bytes_at(b@, pos as int, compact_array(xs, f)) implies
                topics_same(topics@, xs.subrange(0, i + 1)) && p2 == q + concat_map(xs.subrange(0, i + 1), f).len() by {
                assert(bytes_at(b@, p as int, produce_topic_bytes(xs[i as int])));
                lemma_concat_map_item(b@, q as int, xs, f, i as int);
                assert forall|k: int| 0 <= k < i + 1 implies #[trigger] topic_same(topics@[k], xs.subrange(0, i + 1)[k]) by {
                    if k < i {
                        assert(topic_same(before[k], xs.subrange(0, i as int)[k]));
                    }
                }
            }
        }
        p = p2;
        i += 1;
    }
    proof {
        lemma_split(b@, pos as int, q as int, p as int);
        assert forall|xs: Seq<ProduceTopic>|
            topics_fit(xs) && #[trigger] bytes_at(b@, pos as int, compact_array(xs, f)) implies
            topics_same(topics@, xs) && p == pos + compact_array(xs, f).len() by {
            assert(xs.subrange(0, i as int) =~= xs);
        }
    }
    Some((topics, p))
}

impl ProduceRequest {
    /// Reads the payload of a request; `None` where it is malformed.
    #[verifier::rlimit(100)]
    #[verifier::spinoff_prover]
    pub fn new(req: Request) -> (r: Option<ProduceRequest>)
        ensures
            r matches Some(pr) ==> pr.header == req.header && bytes_at(
                req.payload@,
                0,
                produce_request_bytes(pr),
            ),
            forall|x: ProduceRequest|
                produce_request_fits(x) && #[trigger] bytes_at(req.payload@, 0, produce_request_bytes(x))
                    ==> (r matches Some(pr)
                    && opt_view(pr.transactional_id) == opt_view(x.transactional_id)
                    && pr.required_acknowledgements == x.required_acknowledgements && pr.timeout
                    == x.timeout && topics_same(pr.topics@, x.topics@)),
    {
        let ghost pl = req.payload@;
        proof {
            assert forall|x: ProduceRequest|
                produce_request_fits(x) && #[trigger] bytes_at(pl, 0, produce_request_bytes(x)) implies ({
                    let t = nullable_compact_bytes(opt_view(x.transactional_id));
                    &&& bytes_at(pl, 0, t)
                    &&& bytes_at(pl, t.len() as int, i16_bytes(x.required_acknowledgements))
                    &&& bytes_at(pl, t.len() + 2int, i32_bytes(x.timeout))
                    &&& bytes_at(pl, t.len() + 6int, compact_array(x.topics@, produce_topic_item()))
                    &&& bytes_at(pl, t.len() + 6int + compact_array(x.topics@, produce_topic_item()).len(), seq![0u8])
                    &&& x.transactional_id is None ==> pl[0] == 0
                }) by {
                let t = nullable_compact_bytes(opt_view(x.transactional_id));
                let a = compact_array(x.topics@, produce_topic_item());
                lemma_bytes_at_concat(pl, 0, t + i16_bytes(x.required_acknowledgements) + i32_bytes(x.timeout) + a, seq![0u8]);
                lemma_bytes_at_concat(pl, 0, t + i16_bytes(x.required_acknowledgements) + i32_bytes(x.timeout), a);
                lemma_bytes_at_concat(pl, 0, t + i16_bytes(x.required_acknowledgements), i32_bytes(x.timeout));
                lemma_bytes_at_concat(pl, 0, t, i16_bytes(x.required_acknowledgements));
                if x.transactional_id is None {
                    assert(pl.subrange(0, 1)[0] == pl[0]);
                }
            }
        }
        let Request { header, payload, .. } = req;
        let b = payload.as_slice();
        let (transactional_id, p1) = get_nullable_compact_bytes(b, 0)?;
        let (required_acknowledgements, p2) = get_i16(b, p1)?;
        let (timeout, p3) = get_i32(b, p2)?;
        let (topics, p4) = get_produce_topics(b, p3)?;
        let (tag, p5) = get_u8(b, p4)?;
        if tag != 0 {
            return None;
        }
        let pr = ProduceRequest { header, transactional_id, required_acknowledgements, timeout, topics };
        proof {
            lemma_split(b@, 0, p1 as int, p2 as int);
            lemma_split(b@, 0, p2 as int, p3 as int);
            lemma_split(b@, 0, p3 as int, p4 as int);
            lemma_split(b@, 0, p4 as int, p5 as int);
            assert(b@.subrange(p4 as int, p5 as int) =~= seq![0u8]);
            assert(b@.subrange(0, p5 as int) =~= produce_request_bytes(pr));
        }
        Some(pr)
    }
}

// ---------------------------------------------------------------------------
// Writes and the response
// ---------------------------------------------------------------------------

/// The partition `idx` of the first topic named `name` exists.
pub open spec fn target_ok(ts: Seq<TopicModel>, name: Seq<u8>, idx: i32) -> bool {
    exists|i: int| first_named(ts, name, i) && has_partition(ts, ts[i].1, idx)
}

/// A partition log to overwrite with the given bytes.
#[derive(Debug)]
pub struct LogWrite {
    pub topic_name: Vec<u8>,
    pub partition_index: i32,
    pub contents: Vec<u8>,
}

/// A write that failed on disk.
pub open spec fn write_failed(failed: Seq<LogWrite>, name: Seq<u8>, idx: i32) -> bool {
    exists|k: int| 0 <= k < failed.len() && #[trigger] failed[k].topic_name@ == name && failed[k].partition_index == idx
}

/// The answer for one partition: unknown target, failed write, or success.
pub open spec fn partition_result_bytes(
    ts: Seq<TopicModel>,
    failed: Seq<LogWrite>,
    name: Seq<u8>,
    p: Partition,
) -> Seq<u8> {
    i32_bytes(p.index) + (if !target_ok(ts, name, p.index) {
        i16_bytes(3) + i64_bytes(-1i64) + i64_bytes(-1i64) + i64_bytes(-1i64)
    } else if write_failed(failed, name, p.index) {
        i16_bytes(-1i16) + i64_bytes(-1i64) + i64_bytes(-1i64) + i64_bytes(-1i64)
    } else {
        i16_bytes(0) + i64_bytes(0) + i64_bytes(-1i64) + i64_bytes(0)
    }) + compact_count(0) + seq![0u8, 0u8]
}

pub open spec fn partition_result_item(ts: Seq<TopicModel>, failed: Seq<LogWrite>, name: Seq<u8>) -> spec_fn(Partition) -> Seq<u8> {
    |p: Partition| partition_result_bytes(ts, failed, name, p)
}

pub open spec fn topic_result_bytes(ts: Seq<TopicModel>, failed: Seq<LogWrite>, t: ProduceTopic) -> Seq<u8> {
    compact_bytes(t.name@) + compact_array(t.partitions@, partition_result_item(ts, failed, t.name@)) + seq![0u8]
}

pub open spec fn topic_result_item(ts: Seq<TopicModel>, failed: Seq<LogWrite>) -> spec_fn(ProduceTopic) -> Seq<u8> {
    |t: ProduceTopic| topic_result_bytes(ts, failed, t)
}

/// The response body: correlation id, header tag, one answer per topic,
/// throttle time, tag buffer.
pub open spec fn produce_response_body(cid: i32, topics: Seq<ProduceTopic>, ts: Seq<TopicModel>, failed: Seq<LogWrite>) -> Seq<u8> {
    i32_bytes(cid) + seq![0u8] + compact_array(topics, topic_result_item(ts, failed)) + i32_bytes(0) + seq![0u8]
}

/// The bytes a write puts in the log: the batches, or nothing for null.
pub open spec fn batches_or_empty(b: Option<Vec<u8>>) -> Seq<u8> {
    match b {
        Some(v) => v@,
        None => Seq::empty(),
    }
}

/// What each write does: topic name, partition, bytes.
pub open spec fn write_keys(r: Seq<LogWrite>) -> Seq<(Seq<u8>, i32, Seq<u8>)> {
    r.map_values(|w: LogWrite| (w.topic_name@, w.partition_index, w.contents@))
}

/// The writes that a topic's partitions call for, in order: one for each
/// partition with a known target, carrying its batches.
pub open spec fn ok_writes(ts: Seq<TopicModel>, name: Seq<u8>, ps: Seq<Partition>) -> Seq<(Seq<u8>, i32, Seq<u8>)>
    decreases ps.len(),
{
    if ps.len() == 0 {
        Seq::empty()
    } else {
        ok_writes(ts, name, ps.drop_last()) + if target_ok(ts, name, ps.last().index) {
            seq![(name, ps.last().index, batches_or_empty(ps.last().record_batches))]
        } else {
            Seq::empty()
        }
    }
}

/// The writes that a request calls for, topic by topic in request order.
pub open spec fn asked_writes(ts: Seq<TopicModel>, topics: Seq<ProduceTopic>) -> Seq<(Seq<u8>, i32, Seq<u8>)>
    decreases topics.len(),
{
    if topics.len() == 0 {
        Seq::empty()
    } else {
        asked_writes(ts, topics.drop_last()) + ok_writes(ts, topics.last().name@, topics.last().partitions@)
    }
}

/// Appends the answer for a partition whose topic or partition is unknown.
pub fn invalid_topic(buf: &mut Vec<u8>, idx: i32)
    ensures
        final(buf)@ == old(buf)@ + i32_bytes(idx) + i16_bytes(3) + i64_bytes(-1i64) + i64_bytes(-1i64)
            + i64_bytes(-1i64) + compact_count(0) + seq![0u8, 0u8],
{
    put_i32(buf, idx);
    put_i16(buf, 3);
    put_i64(buf, -1);
    put_i64(buf, -1);
    put_i64(buf, -1);
    put_compact_count(buf, 0);
    put_u8(buf, 0);
    put_u8(buf, 0);
    assert(buf@ =~= old(buf)@ + i32_bytes(idx) + i16_bytes(3) + i64_bytes(-1i64) + i64_bytes(-1i64)
        + i64_bytes(-1i64) + compact_count(0) + seq![0u8, 0u8]);
}

/// Whether partition `idx` of the first topic named `name` exists.
pub fn target_exists(store: &MetadataStore, name: &[u8], idx: i32) -> (r: bool)
    ensures
        r == target_ok(store.view(), name@, idx),
{
    match store.find_name(name) {
        Some(i) => {
            let ok = store.valid_partition(store.topics[i].uuid, idx);
            proof {
                if !ok {
                    assert forall|j: int| first_named(store.view(), name@, j) implies !has_partition(store.view(), store.view()[j].1, idx) by {
                        if j < i {
                            assert(store.view()[j].0 != name@);
                        } else if i < j {
                            assert(store.view()[i as int].0 != name@);
                        }
                    }
                }
            }
            ok
        },
        None => false,
    }
}

fn failed_has(failed: &Vec<LogWrite>, name: &[u8], idx: i32) -> (r: bool)
    ensures
        r == write_failed(failed@, name@, idx),
{
    let mut k: usize = 0;
    while k < failed.len()
        invariant
            k <= failed@.len(),
            forall|m: int| 0 <= m < k ==> !(#[trigger] failed@[m].topic_name@ == name@ && failed@[m].partition_index == idx),
        decreases failed@.len() - k,
    {
        if failed[k].partition_index == idx && bytes_eq(failed[k].topic_name.as_slice(), name) {
            return true;
        }
        k += 1;
    }
    false
}

fn put_partition_result(buf: &mut Vec<u8>, store: &MetadataStore, failed: &Vec<LogWrite>, name: &[u8], p: &Partition)
    ensures
        final(buf)@ == old(buf)@ + partition_result_bytes(store.view(), failed@, name@, *p),
{
    if !target_exists(store, name, p.index) {
        invalid_topic(buf, p.index);
    } else {
        put_i32(buf, p.index);
        if failed_has(failed, name, p.index) {
            put_i16(buf, -1);
            put_i64(buf, -1);
            put_i64(buf, -1);
            put_i64(buf, -1);
        } else {
            put_i16(buf, 0);
            put_i64(buf, 0);
            put_i64(buf, -1);
            put_i64(buf, 0);
        }
        put_compact_count(buf, 0);
        put_u8(buf, 0);
        put_u8(buf, 0);
    }
    assert(buf@ =~= old(buf)@ + partition_result_bytes(store.view(), failed@, name@, *p));
}

fn put_topic_result(buf: &mut Vec<u8>, store: &MetadataStore, failed: &Vec<LogWrite>, t: &ProduceTopic)
    ensures
        final(buf)@ == old(buf)@ + topic_result_bytes(store.view(), failed@, *t),
{
    let ghost f = partition_result_item(store.view(), failed@, t.name@);
    put_compact_bytes(buf, t.name.as_slice());
    let ghost mid = buf@;
    let ps = &t.partitions;
    put_compact_count(buf, ps.len());
    let ghost start = buf@;
    let mut k: usize = 0;
    while k < ps.len()
        invariant
            k <= ps@.len(),
            f == partition_result_item(store.view(), failed@, t.name@),
            buf@ == start + concat_map(ps@.subrange(0, k as int), f),
        decreases ps@.len() - k,
    {
        put_partition_result(buf, store, failed, t.name.as_slice(), &ps[k]);
        proof {
            assert(ps@.subrange(0, k + 1) =~= ps@.subrange(0, k as int).push(ps@[k as int]));
            lemma_concat_map_push(ps@.subrange(0, k as int), ps@[k as int], f);
        }
        k += 1;
    }
    assert(ps@.subrange(0, ps@.len() as int) =~= ps@);
    put_u8(buf, 0);
    assert(buf@ =~= old(buf)@ + topic_result_bytes(store.view(), failed@, *t));
}

impl ProduceRequest {
    /// The log writes the request calls for, in request order: one for each
    /// partition whose topic and partition the store knows, carrying the
    /// partition's batches (nothing for null batches).
    pub fn writes(&self, store: &MetadataStore) -> (r: Vec<LogWrite>)
        ensures
            write_keys(r@) == asked_writes(store.view(), self.topics@),
    {
        let ghost ts = store.view();
        let mut r: Vec<LogWrite> = Vec::new();
        let mut i: usize = 0;
        assert(write_keys(r@) =~= asked_writes(ts, self.topics@.subrange(0, 0)));
        while i < self.topics.len()
            invariant
                i <= self.topics@.len(),
                ts == store.view(),
                write_keys(r@) == asked_writes(ts, self.topics@.subrange(0, i as int)),
            decreases self.topics@.len() - i,
        {
            let t = &self.topics[i];
            let ghost r0 = r@;
            let ps = &t.partitions;
            let mut j: usize = 0;
            assert(write_keys(r@) =~= write_keys(r0) + ok_writes(ts, t.name@, ps@.subrange(0, 0)));
            while j < ps.len()
                invariant
                    j <= ps@.len(),
                    ts == store.view(),
                    write_keys(r@) == write_keys(r0) + ok_writes(ts, t.name@, ps@.subrange(0, j as int)),
                decreases ps@.len() - j,
            {
                assert(ps@.subrange(0, j + 1).drop_last() =~= ps@.subrange(0, j as int));
                let ghost r1 = r@;
                if target_exists(store, t.name.as_slice(), ps[j].index) {
                    let contents = match &ps[j].record_batches {
                        Some(v) => copy_range(v.as_slice(), 0, v.len()),
                        None => Vec::new(),
                    };
                    assert(contents@ =~= batches_or_empty(ps@[j as int].record_batches));
                    let name = copy_range(t.name.as_slice(), 0, t.name.len());
                    assert(name@ =~= t.name@);
                    let w = LogWrite { topic_name: name, partition_index: ps[j].index, contents };
                    r.push(w);
                    assert(write_keys(r@) =~= write_keys(r1).push((w.topic_name@, w.partition_index, w.contents@)));
                }
                assert(write_keys(r@) =~= write_keys(r0) + ok_writes(ts, t.name@, ps@.subrange(0, j + 1)));
                j += 1;
            }
            assert(ps@.subrange(0, ps@.len() as int) =~= ps@);
            assert(self.topics@.subrange(0, i + 1).drop_last() =~= self.topics@.subrange(0, i as int));
            assert(self.topics@.subrange(0, i + 1).last() == *t);
            assert(write_keys(r@) =~= asked_writes(ts, self.topics@.subrange(0, i + 1)));
            i += 1;
        }
        assert(self.topics@.subrange(0, self.topics@.len() as int) =~= self.topics@);
        r
    }

    /// The response body, given the writes that failed on disk.
    pub fn response(&self, store: &MetadataStore, failed: &Vec<LogWrite>) -> (r: Vec<u8>)
        ensures
            r@ == produce_response_body(self.header.correlation_id, self.topics@, store.view(), failed@),
    {
        let ghost f = topic_result_item(store.view(), failed@);
        let mut r: Vec<u8> = Vec::new();
        put_i32(&mut r, self.header.correlation_id);
        put_u8(&mut r, 0);
        put_compact_count(&mut r, self.topics.len());
        let ghost start = r@;
        let mut k: usize = 0;
        while k < self.topics.len()
            invariant
                k <= self.topics@.len(),
                f == topic_result_item(store.view(), failed@),
                r@ == start + concat_map(self.topics@.subrange(0, k as int), f),
            decreases self.topics@.len() - k,
        {
            put_topic_result(&mut r, store, failed, &self.topics[k]);
            proof {
                assert(self.topics@.subrange(0, k + 1) =~= self.topics@.subrange(0, k as int).push(self.topics@[k as int]));
                lemma_concat_map_push(self.topics@.subrange(0, k as int), self.topics@[k as int], f);
            }
            k += 1;
        }
        assert(self.topics@.subrange(0, self.topics@.len() as int) =~= self.topics@);
        put_i32(&mut r, 0);
        put_u8(&mut r, 0);
        assert(r@ =~= produce_response_body(self.header.correlation_id, self.topics@, store.view(), failed@));
        r
    }
}

} // verus!
