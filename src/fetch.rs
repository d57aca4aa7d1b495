//! Fetch: requested topics and partitions, and the answer that echoes each
//! partition's log file.
use vstd::prelude::*;
use crate::codec::{
    lemma_bytes_at_concat, lemma_concat_map_item, compact_array, compact_bytes, compact_count, concat_map, get_compact_bytes, get_compact_count,
    get_i32, get_i64, get_i8, get_u128, get_u8, i16_bytes, i32_bytes, i64_bytes, i8_bytes,
    lemma_concat_map_push, put_compact_bytes, put_compact_count, put_i16, put_i32, put_i64,
    put_u128, put_u8, u128_bytes, bytes_at, copy_range,
};
use crate::frame::{Request, RequestHeader};
use crate::metadata::{MetadataStore, TopicModel, has_uuid, lemma_split};

verus! {

#[derive(Debug)]
pub struct PartitionRequest {
    pub partition_id: i32,
    pub current_leader_epoch: i32,
    pub fetch_offset: i64,
    pub last_fetched_epoch: i32,
    pub log_start_offset: i64,
    pub partition_max_bytes: i32,
}

/// A requested topic and its partitions.
#[derive(Debug)]
pub struct FetchTopic {
    pub topic_id: u128,
    pub partitions: Vec<PartitionRequest>,
}

/// A topic that the client's session no longer follows.
#[derive(Debug)]
pub struct ForgottenTopic {
    pub topic_id: u128,
    pub partitions: i32,
}

#[derive(Debug)]
pub struct FetchRequest {
    pub header: RequestHeader,
    pub max_wait: i32,
    pub min_bytes: i32,
    pub max_bytes: i32,
    pub isolation_level: i8,
    pub session_id: i32,
    pub session_epoch: i32,
    pub topics: Vec<FetchTopic>,
    pub forgotten_topics: Vec<ForgottenTopic>,
    pub rack_id: Vec<u8>,
}

pub open spec fn partition_request_bytes(p: PartitionRequest) -> Seq<u8> {
    i32_bytes(p.partition_id) + i32_bytes(p.current_leader_epoch) + i64_bytes(p.fetch_offset)
        + i32_bytes(p.last_fetched_epoch) + i64_bytes(p.log_start_offset) + i32_bytes(
        p.partition_max_bytes,
    )
}

pub open spec fn partition_request_item() -> spec_fn(PartitionRequest) -> Seq<u8> {
    |p: PartitionRequest| partition_request_bytes(p)
}

pub open spec fn fetch_topic_bytes(t: FetchTopic) -> Seq<u8> {
    u128_bytes(t.topic_id) + compact_array(t.partitions@, partition_request_item())
}

pub open spec fn fetch_topic_item() -> spec_fn(FetchTopic) -> Seq<u8> {
    |t: FetchTopic| fetch_topic_bytes(t)
}

pub open spec fn forgotten_item() -> spec_fn(ForgottenTopic) -> Seq<u8> {
    |t: ForgottenTopic| u128_bytes(t.topic_id) + i32_bytes(t.partitions)
}

/// The request payload.
pub open spec fn fetch_request_bytes(f: FetchRequest) -> Seq<u8> {
    i32_bytes(f.max_wait) + i32_bytes(f.min_bytes) + i32_bytes(f.max_bytes) + i8_bytes(
        f.isolation_level,
    ) + i32_bytes(f.session_id) + i32_bytes(f.session_epoch) + compact_array(
        f.topics@,
        fetch_topic_item(),
    ) + compact_array(f.forgotten_topics@, forgotten_item()) + compact_bytes(f.rack_id@) + seq![0u8]
}

fn get_partition_request(b: &[u8], pos: usize) -> (r: Option<(PartitionRequest, usize)>)
    ensures
        r matches Some((p, q)) ==> pos <= q <= b@.len() && b@.subrange(pos as int, q as int)
            == partition_request_bytes(p),
        forall|x: PartitionRequest|
            #[trigger] bytes_at(b@, pos as int, partition_request_bytes(x)) ==> r == Some((x, (pos + 32) as usize)),
{
    proof {
        assert forall|x: PartitionRequest| #[trigger] bytes_at(b@, pos as int, partition_request_bytes(x)) implies {
            &&& bytes_at(b@, pos as int, i32_bytes(x.partition_id))
            &&& bytes_at(b@, pos + 4, i32_bytes(x.current_leader_epoch))
            &&& bytes_at(b@, pos + 8, i64_bytes(x.fetch_offset))
            &&& bytes_at(b@, pos + 16, i32_bytes(x.last_fetched_epoch))
            &&& bytes_at(b@, pos + 20, i64_bytes(x.log_start_offset))
            &&& bytes_at(b@, pos + 28, i32_bytes(x.partition_max_bytes))
        } by {
            let (a, c, d, e, g, h) = (i32_bytes(x.partition_id), i32_bytes(x.current_leader_epoch), i64_bytes(x.fetch_offset), i32_bytes(x.last_fetched_epoch), i64_bytes(x.log_start_offset), i32_bytes(x.partition_max_bytes));
            lemma_bytes_at_concat(b@, pos as int, a + c + d + e + g, h);
            lemma_bytes_at_concat(b@, pos as int, a + c + d + e, g);
            lemma_bytes_at_concat(b@, pos as int, a + c + d, e);
            lemma_bytes_at_concat(b@, pos as int, a + c, d);
            lemma_bytes_at_concat(b@, pos as int, a, c);
        }
    }
    let (partition_id, p1) = get_i32(b, pos)?;
    let (current_leader_epoch, p2) = get_i32(b, p1)?;
    let (fetch_offset, p3) = get_i64(b, p2)?;
    let (last_fetched_epoch, p4) = get_i32(b, p3)?;
    let (log_start_offset, p5) = get_i64(b, p4)?;
    let (partition_max_bytes, p6) = get_i32(b, p5)?;
    proof {
        lemma_split(b@, pos as int, p1 as int, p2 as int);
        lemma_split(b@, pos as int, p2 as int, p3 as int);
        lemma_split(b@, pos as int, p3 as int, p4 as int);
        lemma_split(b@, pos as int, p4 as int, p5 as int);
        lemma_split(b@, pos as int, p5 as int, p6 as int);
    }
    Some((
        PartitionRequest {
            partition_id,
            current_leader_epoch,
            fetch_offset,
            last_fetched_epoch,
            log_start_offset,
            partition_max_bytes,
        },
        p6,
    ))
}

/// Two requested topics with the same id and partitions.
pub open spec fn fetch_topic_same(a: FetchTopic, t: FetchTopic) -> bool {
    a.topic_id == t.topic_id && a.partitions@ == t.partitions@
}

pub open spec fn fetch_topics_same(a: Seq<FetchTopic>, t: Seq<FetchTopic>) -> bool {
    a.len() == t.len() && forall|k: int| 0 <= k < a.len() ==> #[trigger] fetch_topic_same(a[k], t[k])
}

pub open spec fn fetch_topics_fit(ts: Seq<FetchTopic>) -> bool {
    ts.len() < u32::MAX && forall|k: int| 0 <= k < ts.len() ==> #[trigger] ts[k].partitions@.len() < u32::MAX
}

fn get_fetch_topic(b: &[u8], pos: usize) -> (r: Option<(FetchTopic, usize)>)
    ensures
        r matches Some((t, q)) ==> pos <= q <= b@.len() && b@.subrange(pos as int, q as int)
            == fetch_topic_bytes(t),
        forall|x: FetchTopic|
            x.partitions@.len() < u32::MAX && #[trigger] bytes_at(b@, pos as int, fetch_topic_bytes(x)) ==> (r matches Some((u, q))
                && fetch_topic_same(u, x) && q == pos + fetch_topic_bytes(x).len()),
{
    let ghost f = partition_request_item();
    proof {
        assert forall|x: FetchTopic|
            x.partitions@.len() < u32::MAX && #[trigger] bytes_at(b@, pos as int, fetch_topic_bytes(x)) implies
            bytes_at(b@, pos as int, u128_bytes(x.topic_id)) && bytes_at(
                b@,
                pos + 16,
                compact_count(x.partitions@.len()),
            ) && bytes_at(
                b@,
                pos + 16 + compact_count(x.partitions@.len()).len(),
                concat_map(x.partitions@, f),
            ) by {
            lemma_bytes_at_concat(b@, pos as int, u128_bytes(x.topic_id), compact_array(x.partitions@, f));
            lemma_bytes_at_concat(b@, pos + 16, compact_count(x.partitions@.len()), concat_map(x.partitions@, f));
        }
    }
    let (topic_id, p1) = get_u128(b, pos)?;
    let (n, q) = get_compact_count(b, p1)?;
    let mut partitions: Vec<PartitionRequest> = Vec::new();
    let mut p = q;
    let mut i: u32 = 0;
    while i < n
        invariant
            p1 < q <= p <= b@.len(),
            b@.subrange(p1 as int, q as int) == compact_count(n as nat),
            partitions@.len() == i,
            i <= n,
            f == partition_request_item(),
            b@.subrange(q as int, p as int) == concat_map(partitions@, f),
            forall|x: FetchTopic|
                x.partitions@.len() < u32::MAX && #[trigger] bytes_at(b@, pos as int, fetch_topic_bytes(x)) ==> x.topic_id
                    == topic_id && p1 == pos + 16 && x.partitions@.len() == n && q == p1
                    + compact_count(x.partitions@.len()).len() && bytes_at(b@, q as int, concat_map(x.partitions@, f))
                    && partitions@ == x.partitions@.subrange(0, i as int) && p == q
                    + concat_map(x.partitions@.subrange(0, i as int), f).len(),
        decreases n - i,
    {
        proof {
            assert forall|x: FetchTopic|
                x.partitions@.len() < u32::MAX && #[trigger] bytes_at(b@, pos as int, fetch_topic_bytes(x)) implies
                bytes_at(b@, p as int, partition_request_bytes(x.partitions@[i as int])) by {
                lemma_concat_map_item(b@, q as int, x.partitions@, f, i as int);
            }
        }
        let (part, p2) = match get_partition_request(b, p) {
            Some(x) => x,
            None => {
                proof {
                    assert forall|x: FetchTopic|
                        x.partitions@.len() < u32::MAX && #[trigger] bytes_at(b@, pos as int, fetch_topic_bytes(x)) implies false by {
                        assert(bytes_at(b@, p as int, partition_request_bytes(x.partitions@[i as int])));
                    }
                }
                return None;
            },
        };
        proof {
            lemma_concat_map_push(partitions@, part, f);
            lemma_split(b@, q as int, p as int, p2 as int);
        }
        let ghost before = partitions@;
        partitions.push(part);
        proof {
            assert forall|x: FetchTopic|
                x.partitions@.len() < u32::MAX && #[trigger] bytes_at(b@, pos as int, fetch_topic_bytes(x)) implies
                partitions@ == x.partitions@.subrange(0, i + 1) && p2 == q + concat_map(
                    x.partitions@.subrange(0, i + 1),
                    f,
                ).len() by {
                assert(bytes_at(b@, p as int, partition_request_bytes(x.partitions@[i as int])));
                lemma_concat_map_item(b@, q as int, x.partitions@, f, i as int);
                assert(x.partitions@.subrange(0, i + 1) =~= x.partitions@.subrange(0, i as int).push(x.partitions@[i as int]));
            }
        }
        p = p2;
        i += 1;
    }
    proof {
        lemma_split(b@, p1 as int, q as int, p as int);
        lemma_split(b@, pos as int, p1 as int, p as int);
        assert forall|x: FetchTopic|
            x.partitions@.len() < u32::MAX && #[trigger] bytes_at(b@, pos as int, fetch_topic_bytes(x)) implies
            partitions@ == x.partitions@ && p == pos + fetch_topic_bytes(x).len() by {
            assert(x.partitions@.subrange(0, i as int) =~= x.partitions@);
        }
    }
    Some((FetchTopic { topic_id, partitions }, p))
}

fn get_fetch_topics(b: &[u8], pos: usize) -> (r: Option<(Vec<FetchTopic>, usize)>)
    ensures
        r matches Some((ts, q)) ==> pos <= q <= b@.len() && b@.subrange(pos as int, q as int)
            == compact_array(ts@, fetch_topic_item()),
        forall|xs: Seq<FetchTopic>|
            fetch_topics_fit(xs) && #[trigger] bytes_at(b@, pos as int, compact_array(xs, fetch_topic_item())) ==> (r matches Some((u, q))
                && fetch_topics_same(u@, xs) && q == pos + compact_array(xs, fetch_topic_item()).len()),
{
    let ghost f = fetch_topic_item();
    proof {
        assert forall|xs: Seq<FetchTopic>|
            fetch_topics_fit(xs) && #[trigger] bytes_at(b@, pos as int, compact_array(xs, f)) implies
            bytes_at(b@, pos as int, compact_count(xs.len())) && bytes_at(
                b@,
                pos + compact_count(xs.len()).len(),
                concat_map(xs, f),
            ) by {
            lemma_bytes_at_concat(b@, pos as int, compact_count(xs.len()), concat_map(xs, f));
        }
    }
    let (n, q) = get_compact_count(b, pos)?;
    let mut topics: Vec<FetchTopic> = Vec::new();
    let mut p = q;
    let mut i: u32 = 0;
    while i < n
        invariant
            pos < q <= p <= b@.len(),
            b@.subrange(pos as int, q as int) == compact_count(n as nat),
            topics@.len() == i,
            i <= n,
            f == fetch_topic_item(),
            b@.subrange(q as int, p as int) == concat_map(topics@, f),
            forall|xs: Seq<FetchTopic>|
                fetch_topics_fit(xs) && #[trigger] bytes_at(b@, pos as int, compact_array(xs, f)) ==> xs.len() == n
                    && q == pos + compact_count(xs.len()).len() && bytes_at(b@, q as int, concat_map(xs, f))
                    && fetch_topics_same(topics@, xs.subrange(0, i as int)) && p == q + concat_map(
                    xs.subrange(0, i as int),
                    f,
                ).len(),
        decreases n - i,
    {
        proof {
            assert forall|xs: Seq<FetchTopic>|
                fetch_topics_fit(xs) && #[trigger] bytes_at(b@, pos as int, compact_array(xs, f)) implies
                bytes_at(b@, p as int, fetch_topic_bytes(xs[i as int])) && xs[i as int].partitions@.len() < u32::MAX by {
                lemma_concat_map_item(b@, q as int, xs, f, i as int);
            }
        }
        let (t, p2) = match get_fetch_topic(b, p) {
            Some(x) => x,
            None => {
                proof {
                    assert forall|xs: Seq<FetchTopic>|
                        fetch_topics_fit(xs) && #[trigger] bytes_at(b@, pos as int, compact_array(xs, f)) implies false by {
                        assert(bytes_at(b@, p as int, fetch_topic_bytes(xs[i as int])));
                    }
                }
                return None;
            },
        };
        proof {
            lemma_concat_map_push(topics@, t, f);
            lemma_split(b@, q as int, p as int, p2 as int);
        }
        let ghost before = topics@;
        topics.push(t);
        proof {
            assert forall|xs: Seq<FetchTopic>|
                fetch_topics_fit(xs) && #[trigger] bytes_at(b@, pos as int, compact_array(xs, f)) implies
                fetch_topics_same(topics@, xs.subrange(0, i + 1)) && p2 == q + concat_map(xs.subrange(0, i + 1), f).len() by {
                assert(bytes_at(b@, p as int, fetch_topic_bytes(xs[i as int])));
                lemma_concat_map_item(b@, q as int, xs, f, i as int);
                assert forall|k: int| 0 <= k < i + 1 implies #[trigger] fetch_topic_same(topics@[k], xs.subrange(0, i + 1)[k]) by {
                    if k < i {
                        assert(fetch_topic_same(before[k], xs.subrange(0, i as int)[k]));
                    }
                }
            }
        }
        p = p2;
        i += 1;
    }
    proof {
        lemma_split(b@, pos as int, q as int, p as int);
        assert forall|xs: Seq<FetchTopic>|
            fetch_topics_fit(xs) && #[trigger] bytes_at(b@, pos as int, compact_array(xs, f)) implies
            fetch_topics_same(topics@, xs) && p == pos + compact_array(xs, f).len() by {
            assert(xs.subrange(0, i as int) =~= xs);
        }
    }
    Some((topics, p))
}

fn get_forgotten_topics(b: &[u8], pos: usize) -> (r: Option<(Vec<ForgottenTopic>, usize)>)
    ensures
        r matches Some((ts, q)) ==> pos <= q <= b@.len() && b@.subrange(pos as int, q as int)
            == compact_array(ts@, forgotten_item()),
        forall|xs: Seq<ForgottenTopic>|
            xs.len() < u32::MAX && #[trigger] bytes_at(b@, pos as int, compact_array(xs, forgotten_item())) ==> (r matches Some((u, q))
                && u@ == xs && q == pos + compact_array(xs, forgotten_item()).len()),
{
    let ghost f = forgotten_item();
    proof {
        assert forall|xs: Seq<ForgottenTopic>|
            xs.len() < u32::MAX && #[trigger] bytes_at(b@, pos as int, compact_array(xs, f)) implies
            bytes_at(b@, pos as int, compact_count(xs.len())) && bytes_at(
                b@,
                pos + compact_count(xs.len()).len(),
                concat_map(xs, f),
            ) by {
            lemma_bytes_at_concat(b@, pos as int, compact_count(xs.len()), concat_map(xs, f));
        }
    }
    let (n, q) = get_compact_count(b, pos)?;
    let mut topics: Vec<ForgottenTopic> = Vec::new();
    let mut p = q;
    let mut i: u32 = 0;
    while i < n
        invariant
            pos < q <= p <= b@.len(),
            b@.subrange(pos as int, q as int) == compact_count(n as nat),
            topics@.len() == i,
            i <= n,
            f == forgotten_item(),
            b@.subrange(q as int, p as int) == concat_map(topics@, f),
            forall|xs: Seq<ForgottenTopic>|
                xs.len() < u32::MAX && #[trigger] bytes_at(b@, pos as int, compact_array(xs, f)) ==> xs.len() == n
                    && q == pos + compact_count(xs.len()).len() && bytes_at(b@, q as int, concat_map(xs, f))
                    && topics@ == xs.subrange(0, i as int) && p == q + concat_map(xs.subrange(0, i as int), f).len(),
        decreases n - i,
    {
        proof {
            assert forall|xs: Seq<ForgottenTopic>|
                xs.len() < u32::MAX && #[trigger] bytes_at(b@, pos as int, compact_array(xs, f)) implies
                bytes_at(b@, p as int, u128_bytes(xs[i as int].topic_id)) && bytes_at(b@, p + 16, i32_bytes(xs[i as int].partitions)) by {
                lemma_concat_map_item(b@, q as int, xs, f, i as int);
                lemma_bytes_at_concat(b@, p as int, u128_bytes(xs[i as int].topic_id), i32_bytes(xs[i as int].partitions));
            }
        }
        let (topic_id, p1) = match get_u128(b, p) {
            Some(x) => x,
            None => {
                proof {
                    assert forall|xs: Seq<ForgottenTopic>|
                        xs.len() < u32::MAX && #[trigger] bytes_at(b@, pos as int, compact_array(xs, f)) implies false by {
                        assert(bytes_at(b@, p as int, u128_bytes(xs[i as int].topic_id)));
                    }
                }
                return None;
            },
        };
        let (partitions, p2) = match get_i32(b, p1) {
            Some(x) => x,
            None => {
                proof {
                    assert forall|xs: Seq<ForgottenTopic>|
                        xs.len() < u32::MAX && #[trigger] bytes_at(b@, pos as int, compact_array(xs, f)) implies false by {
                        assert(bytes_at(b@, p as int, u128_bytes(xs[i as int].topic_id)));
                    }
                }
                return None;
            },
        };
        let t = ForgottenTopic { topic_id, partitions };
        proof {
            lemma_concat_map_push(topics@, t, f);
            lemma_split(b@, q as int, p as int, p2 as int);
            lemma_split(b@, p as int, p1 as int, p2 as int);
        }
        topics.push(t);
        proof {
            assert forall|xs: Seq<ForgottenTopic>|
                xs.len() < u32::MAX && #[trigger] bytes_at(b@, pos as int, compact_array(xs, f)) implies
                topics@ == xs.subrange(0, i + 1) && p2 == q + concat_map(xs.subrange(0, i + 1), f).len() by {
                assert(bytes_at(b@, p as int, u128_bytes(xs[i as int].topic_id)));
                lemma_concat_map_item(b@, q as int, xs, f, i as int);
                assert(xs.subrange(0, i + 1) =~= xs.subrange(0, i as int).push(xs[i as int]));
            }
        }
        p = p2;
        i += 1;
    }
    proof {
        lemma_split(b@, pos as int, q as int, p as int);
        assert forall|xs: Seq<ForgottenTopic>|
            xs.len() < u32::MAX && #[trigger] bytes_at(b@, pos as int, compact_array(xs, f)) implies
            topics@ == xs && p == pos + compact_array(xs, f).len() by {
            assert(xs.subrange(0, i as int) =~= xs);
        }
    }
    Some((topics, p))
}

/// The arrays and strings of a request fit their count prefixes.
pub open spec fn fetch_request_fits(x: FetchRequest) -> bool {
    fetch_topics_fit(x.topics@) && x.forgotten_topics@.len() < u32::MAX && x.rack_id@.len() < u32::MAX
}

impl FetchRequest {
    /// Reads the payload of a request; `None` where it is malformed.
    #[verifier::rlimit(100)]
    #[verifier::spinoff_prover]
    pub fn new(req: Request) -> (r: Option<FetchRequest>)
        ensures
            r matches Some(f) ==> f.header == req.header && bytes_at(
                req.payload@,
                0,
                fetch_request_bytes(f),
            ),
            forall|x: FetchRequest|
                fetch_request_fits(x) && #[trigger] bytes_at(req.payload@, 0, fetch_request_bytes(x)) ==> (r matches Some(f)
                    && f.max_wait == x.max_wait && f.min_bytes == x.min_bytes && f.max_bytes == x.max_bytes
                    && f.isolation_level == x.isolation_level && f.session_id == x.session_id
                    && f.session_epoch == x.session_epoch && fetch_topics_same(f.topics@, x.topics@)
                    && f.forgotten_topics@ == x.forgotten_topics@ && f.rack_id@ == x.rack_id@),
    {
        let ghost pl = req.payload@;
        proof {
            assert forall|x: FetchRequest|
                fetch_request_fits(x) && #[trigger] bytes_at(pl, 0, fetch_request_bytes(x)) implies ({
                    let t = compact_array(x.topics@, fetch_topic_item());
                    let g = compact_array(x.forgotten_topics@, forgotten_item());
                    let k = compact_bytes(x.rack_id@);
                    &&& bytes_at(pl, 0, i32_bytes(x.max_wait))
                    &&& bytes_at(pl, 4, i32_bytes(x.min_bytes))
                    &&& bytes_at(pl, 8, i32_bytes(x.max_bytes))
                    &&& bytes_at(pl, 12, i8_bytes(x.isolation_level))
                    &&& bytes_at(pl, 13, i32_bytes(x.session_id))
                    &&& bytes_at(pl, 17, i32_bytes(x.session_epoch))
                    &&& bytes_at(pl, 21, t)
                    &&& bytes_at(pl, 21int + t.len(), g)
                    &&& bytes_at(pl, 21int + t.len() + g.len(), k)
                    &&& bytes_at(pl, 21int + t.len() + g.len() + k.len(), seq![0u8])
                }) by {
                let (a1, a2, a3, a4, a5, a6) = (i32_bytes(x.max_wait), i32_bytes(x.min_bytes), i32_bytes(x.max_bytes), i8_bytes(x.isolation_level), i32_bytes(x.session_id), i32_bytes(x.session_epoch));
                let t = compact_array(x.topics@, fetch_topic_item());
                let g = compact_array(x.forgotten_topics@, forgotten_item());
                let k = compact_bytes(x.rack_id@);
                lemma_bytes_at_concat(pl, 0, a1 + a2 + a3 + a4 + a5 + a6 + t + g + k, seq![0u8]);
                lemma_bytes_at_concat(pl, 0, a1 + a2 + a3 + a4 + a5 + a6 + t + g, k);
                lemma_bytes_at_concat(pl, 0, a1 + a2 + a3 + a4 + a5 + a6 + t, g);
                lemma_bytes_at_concat(pl, 0, a1 + a2 + a3 + a4 + a5 + a6, t);
                lemma_bytes_at_concat(pl, 0, a1 + a2 + a3 + a4 + a5, a6);
                lemma_bytes_at_concat(pl, 0, a1 + a2 + a3 + a4, a5);
                lemma_bytes_at_concat(pl, 0, a1 + a2 + a3, a4);
                lemma_bytes_at_concat(pl, 0, a1 + a2, a3);
                lemma_bytes_at_concat(pl, 0, a1, a2);
            }
        }
        let Request { header, payload, .. } = req;
        let b = payload.as_slice();
        let (max_wait, p1) = get_i32(b, 0)?;
        let (min_bytes, p2) = get_i32(b, p1)?;
        let (max_bytes, p3) = get_i32(b, p2)?;
        let (isolation_level, p4) = get_i8(b, p3)?;
        let (session_id, p5) = get_i32(b, p4)?;
        let (session_epoch, p6) = get_i32(b, p5)?;
        let (topics, p7) = get_fetch_topics(b, p6)?;
        let (forgotten_topics, p8) = get_forgotten_topics(b, p7)?;
        let (rack_id, p9) = get_compact_bytes(b, p8)?;
        let (tag, p10) = get_u8(b, p9)?;
        if tag != 0 {
            return None;
        }
        let f = FetchRequest {
            header,
            max_wait,
            min_bytes,
            max_bytes,
            isolation_level,
            session_id,
            session_epoch,
            topics,
            forgotten_topics,
            rack_id,
        };
        proof {
            lemma_split(b@, 0, p1 as int, p2 as int);
            lemma_split(b@, 0, p2 as int, p3 as int);
            lemma_split(b@, 0, p3 as int, p4 as int);
            lemma_split(b@, 0, p4 as int, p5 as int);
            lemma_split(b@, 0, p5 as int, p6 as int);
            lemma_split(b@, 0, p6 as int, p7 as int);
            lemma_split(b@, 0, p7 as int, p8 as int);
            lemma_split(b@, 0, p8 as int, p9 as int);
            lemma_split(b@, 0, p9 as int, p10 as int);
            assert(b@.subrange(p9 as int, p10 as int) =~= seq![0u8]);
            assert(b@.subrange(0, p10 as int) =~= fetch_request_bytes(f));
        }
        Some(f)
    }
}

/// A partition log that the response echoes: which one, and its bytes as
/// read from disk (empty where there is no file).
#[derive(Debug)]
pub struct FetchLog {
    pub topic_id: u128,
    pub partition_id: i32,
    pub topic_name: Vec<u8>,
    pub contents: Vec<u8>,
}

/// `logs[i]` is the first log of this topic and partition.
pub open spec fn first_log(logs: Seq<FetchLog>, id: u128, pid: i32, i: int) -> bool {
    &&& 0 <= i < logs.len()
    &&& logs[i].topic_id == id && logs[i].partition_id == pid
    &&& forall|j: int| 0 <= j < i ==> !(#[trigger] logs[j].topic_id == id && logs[j].partition_id == pid)
}

/// The bytes of the first log of this topic and partition; none if absent.
pub open spec fn log_contents(logs: Seq<FetchLog>, id: u128, pid: i32) -> Seq<u8> {
    if exists|i: int| first_log(logs, id, pid, i) {
        logs[choose|i: int| first_log(logs, id, pid, i)].contents@
    } else {
        Seq::empty()
    }
}

/// The first topic with this uuid stands at `i`.
pub open spec fn first_uuid(ts: Seq<TopicModel>, id: u128, i: int) -> bool {
    0 <= i < ts.len() && ts[i].1 == id && forall|j: int| 0 <= j < i ==> #[trigger] ts[j].1 != id
}

/// `l` carries the name of the first topic with its id.
pub open spec fn log_named(ts: Seq<TopicModel>, l: FetchLog) -> bool {
    exists|i: int| first_uuid(ts, l.topic_id, i) && #[trigger] ts[i].0 == l.topic_name@
}
/// The topic and partition of each log.
pub open spec fn log_keys(r: Seq<FetchLog>) -> Seq<(u128, i32)> {
    r.map_values(|l: FetchLog| (l.topic_id, l.partition_id))
}

/// The requested partitions of a topic, as topic and partition.
pub open spec fn partition_keys(id: u128, ps: Seq<PartitionRequest>) -> Seq<(u128, i32)> {
    ps.map_values(|p: PartitionRequest| (id, p.partition_id))
}

/// The partitions asked for, in request order, of the topics the store knows.
pub open spec fn asked_log_keys(ts: Seq<TopicModel>, topics: Seq<FetchTopic>) -> Seq<(u128, i32)>
    decreases topics.len(),
{
    if topics.len() == 0 {
        Seq::empty()
    } else {
        asked_log_keys(ts, topics.drop_last()) + if has_uuid(ts, topics.last().topic_id) {
            partition_keys(topics.last().topic_id, topics.last().partitions@)
        } else {
            Seq::empty()
        }
    }
}
/// The answer for a partition of a known topic: no error, zero offsets, no
/// aborted transactions, the partition's log as a compact byte string.
pub open spec fn fetch_partition_bytes(logs: Seq<FetchLog>, id: u128, p: PartitionRequest) -> Seq<u8> {
    i32_bytes(p.partition_id) + i16_bytes(0) + i64_bytes(0) + i64_bytes(0) + i64_bytes(0)
        + compact_count(0) + i32_bytes(0) + compact_bytes(log_contents(logs, id, p.partition_id))
        + seq![0u8]
}

pub open spec fn fetch_partition_item(logs: Seq<FetchLog>, id: u128) -> spec_fn(PartitionRequest) -> Seq<u8> {
    |p: PartitionRequest| fetch_partition_bytes(logs, id, p)
}

/// The partition list answered for a topic id that the store lacks: one
/// partition 0 with error UnknownTopicId and every other field zero or empty.
pub open spec fn unknown_topic_partitions() -> Seq<u8> {
    compact_count(1) + i32_bytes(0) + i16_bytes(100) + i64_bytes(0) + i64_bytes(0) + i64_bytes(0)
        + compact_count(0) + i32_bytes(0) + compact_count(0) + seq![0u8]
}

pub open spec fn fetch_topic_response_bytes(ts: Seq<TopicModel>, logs: Seq<FetchLog>, t: FetchTopic) -> Seq<u8> {
    u128_bytes(t.topic_id) + (if has_uuid(ts, t.topic_id) {
        compact_array(t.partitions@, fetch_partition_item(logs, t.topic_id))
    } else {
        unknown_topic_partitions()
    }) + seq![0u8]
}

pub open spec fn fetch_topic_response_item(ts: Seq<TopicModel>, logs: Seq<FetchLog>) -> spec_fn(FetchTopic) -> Seq<u8> {
    |t: FetchTopic| fetch_topic_response_bytes(ts, logs, t)
}

/// The response body: correlation id, header tag, throttle time, no error,
/// the session id, one answer per requested topic, tag buffer.
pub open spec fn fetch_response_body(
    cid: i32,
    session_id: i32,
    topics: Seq<FetchTopic>,
    ts: Seq<TopicModel>,
    logs: Seq<FetchLog>,
) -> Seq<u8> {
    i32_bytes(cid) + seq![0u8] + i32_bytes(0) + i16_bytes(0) + i32_bytes(session_id)
        + compact_array(topics, fetch_topic_response_item(ts, logs)) + seq![0u8]
}

/// Finds the first log of this topic and partition.
fn find_log(logs: &Vec<FetchLog>, id: u128, pid: i32) -> (r: Option<usize>)
    ensures
        r matches Some(i) ==> first_log(logs@, id, pid, i as int),
        r is None ==> !exists|i: int| first_log(logs@, id, pid, i),
{
    let mut i: usize = 0;
    while i < logs.len()
        invariant
            i <= logs@.len(),
            forall|j: int| 0 <= j < i ==> !(#[trigger] logs@[j].topic_id == id && logs@[j].partition_id == pid),
        decreases logs@.len() - i,
    {
        if logs[i].topic_id == id && logs[i].partition_id == pid {
            return Some(i);
        }
        i += 1;
    }
    None
}

proof fn lemma_first_log_unique(logs: Seq<FetchLog>, id: u128, pid: i32, i: int)
    requires
        first_log(logs, id, pid, i),
    ensures
        log_contents(logs, id, pid) == logs[i].contents@,
{
    let j = choose|j: int| first_log(logs, id, pid, j);
    assert(first_log(logs, id, pid, j));
    if j < i {
        assert(!(logs[j].topic_id == id && logs[j].partition_id == pid));
    } else if i < j {
        assert(!(logs[i].topic_id == id && logs[i].partition_id == pid));
    }
}

fn put_fetch_partition(buf: &mut Vec<u8>, logs: &Vec<FetchLog>, id: u128, p: &PartitionRequest)
    ensures
        final(buf)@ == old(buf)@ + fetch_partition_bytes(logs@, id, *p),
{
    put_i32(buf, p.partition_id);
    put_i16(buf, 0);
    put_i64(buf, 0);
    put_i64(buf, 0);
    put_i64(buf, 0);
    put_compact_count(buf, 0);
    put_i32(buf, 0);
    match find_log(logs, id, p.partition_id) {
        Some(i) => {
            proof {
                lemma_first_log_unique(logs@, id, p.partition_id, i as int);
            }
            put_compact_bytes(buf, logs[i].contents.as_slice());
        },
        None => {
            let empty: Vec<u8> = Vec::new();
            assert(empty@ =~= log_contents(logs@, id, p.partition_id));
            put_compact_bytes(buf, empty.as_slice());
        },
    }
    put_u8(buf, 0);
    assert(buf@ =~= old(buf)@ + fetch_partition_bytes(logs@, id, *p));
}

/// The body of a response to a request without topics.
pub open spec fn no_topic_body(cid: i32, session_id: i32) -> Seq<u8> {
    i32_bytes(cid) + seq![0u8] + i32_bytes(0) + i16_bytes(0) + i32_bytes(session_id) + seq![1u8, 0u8]
}

fn put_unknown_topic_partitions(buf: &mut Vec<u8>)
    ensures
        final(buf)@ == old(buf)@ + unknown_topic_partitions(),
{
    put_compact_count(buf, 1);
    put_i32(buf, 0);
    put_i16(buf, 100);
    put_i64(buf, 0);
    put_i64(buf, 0);
    put_i64(buf, 0);
    put_compact_count(buf, 0);
    put_i32(buf, 0);
    put_compact_count(buf, 0);
    put_u8(buf, 0);
    assert(buf@ =~= old(buf)@ + unknown_topic_partitions());
}

fn put_fetch_topic(buf: &mut Vec<u8>, store: &MetadataStore, logs: &Vec<FetchLog>, t: &FetchTopic)
    ensures
        final(buf)@ == old(buf)@ + fetch_topic_response_bytes(store.view(), logs@, *t),
{
    put_u128(buf, t.topic_id);
    let ghost mid = buf@;
    if store.has_topic(t.topic_id) {
        let ghost f = fetch_partition_item(logs@, t.topic_id);
        let ps = &t.partitions;
        put_compact_count(buf, ps.len());
        let ghost start = buf@;
        let mut k: usize = 0;
        while k < ps.len()
            invariant
                k <= ps@.len(),
                f == fetch_partition_item(logs@, t.topic_id),
                buf@ == start + concat_map(ps@.subrange(0, k as int), f),
            decreases ps@.len() - k,
        {
            put_fetch_partition(buf, logs, t.topic_id, &ps[k]);
            proof {
                assert(ps@.subrange(0, k + 1) =~= ps@.subrange(0, k as int).push(ps@[k as int]));
                lemma_concat_map_push(ps@.subrange(0, k as int), ps@[k as int], f);
            }
            k += 1;
        }
        assert(ps@.subrange(0, ps@.len() as int) =~= ps@);
        assert(buf@ =~= mid + compact_array(t.partitions@, f));
    } else {
        FetchRequest::unknown_topics_response(buf);
    }
    put_u8(buf, 0);
    assert(buf@ =~= old(buf)@ + fetch_topic_response_bytes(store.view(), logs@, *t));
}

impl FetchRequest {
    /// The logs that the response echoes, in request order: for each
    /// requested topic that the store knows, each requested partition, under
    /// the name of the first topic with that id. Their `contents` are left
    /// empty, to be filled from disk.
    pub fn log_reads(&self, store: &MetadataStore) -> (r: Vec<FetchLog>)
        ensures
            log_keys(r@) == asked_log_keys(store.view(), self.topics@),
            forall|k: int|
                0 <= k < r@.len() ==> r@[k].contents@.len() == 0 && has_uuid(store.view(), r@[k].topic_id)
                    && log_named(store.view(), #[trigger] r@[k]),
    {
        let ghost ts = store.view();
        let mut r: Vec<FetchLog> = Vec::new();
        let mut i: usize = 0;
        assert(log_keys(r@) =~= asked_log_keys(ts, self.topics@.subrange(0, 0)));
        while i < self.topics.len()
            invariant
                i <= self.topics@.len(),
                ts == store.view(),
                log_keys(r@) == asked_log_keys(ts, self.topics@.subrange(0, i as int)),
                forall|k: int|
                    0 <= k < r@.len() ==> r@[k].contents@.len() == 0 && has_uuid(store.view(), r@[k].topic_id)
                        && log_named(store.view(), #[trigger] r@[k]),
            decreases self.topics@.len() - i,
        {
            let t = &self.topics[i];
            let ghost r0 = r@;
            proof {
                assert(self.topics@.subrange(0, i + 1).drop_last() =~= self.topics@.subrange(0, i as int));
            }
            match store.find_uuid(t.topic_id) {
                Some(x) => {
                    let ps = &t.partitions;
                    let mut j: usize = 0;
                    assert(log_keys(r@) =~= log_keys(r0) + partition_keys(t.topic_id, ps@.subrange(0, 0)));
                    while j < ps.len()
                        invariant
                            j <= ps@.len(),
                            x < store.view().len(),
                            first_uuid(store.view(), t.topic_id, x as int),
                            log_keys(r@) == log_keys(r0) + partition_keys(t.topic_id, ps@.subrange(0, j as int)),
                            forall|k: int|
                                0 <= k < r@.len() ==> r@[k].contents@.len() == 0 && has_uuid(store.view(), r@[k].topic_id)
                                    && log_named(store.view(), #[trigger] r@[k]),
                        decreases ps@.len() - j,
                    {
                        let name = copy_name(&store.topics[x].name);
                        let log = FetchLog {
                            topic_id: t.topic_id,
                            partition_id: ps[j].partition_id,
                            topic_name: name,
                            contents: Vec::new(),
                        };
                        proof {
                            assert(store.view()[x as int].0 == log.topic_name@);
                            assert(log_named(store.view(), log));
                        }
                        let ghost r1 = r@;
                        r.push(log);
                        proof {
                            assert(log_keys(r@) =~= log_keys(r1).push((log.topic_id, log.partition_id)));
                            assert(partition_keys(t.topic_id, ps@.subrange(0, j + 1)) =~= partition_keys(
                                t.topic_id,
                                ps@.subrange(0, j as int),
                            ).push((log.topic_id, log.partition_id)));
                            assert(log_keys(r@) =~= log_keys(r0) + partition_keys(t.topic_id, ps@.subrange(0, j + 1)));
                            assert forall|k: int| 0 <= k < r@.len() implies r@[k].contents@.len() == 0 && has_uuid(store.view(), r@[k].topic_id)
                                && log_named(store.view(), #[trigger] r@[k]) by {
                                if k < r1.len() {
                                    assert(r@[k] == r1[k]);
                                }
                            }
                        }
                        j += 1;
                    }
                    proof {
                        assert(ps@.subrange(0, ps@.len() as int) =~= ps@);
                        assert(ts[x as int].1 == t.topic_id);
                        assert(has_uuid(ts, t.topic_id));
                    }
                },
                None => {
                    assert(log_keys(r@) =~= log_keys(r0));
                },
            }
            proof {
                assert(self.topics@.subrange(0, i + 1).last() == *t);
            }
            i += 1;
        }
        assert(self.topics@.subrange(0, self.topics@.len() as int) =~= self.topics@);
        r
    }

    /// Appends the answer to a request without topics: correlation id,
    /// header tag, throttle time 0, no error, the session id, an empty
    /// response list, tag buffer.
    pub fn no_topic_response(&self, content: &mut Vec<u8>)
        ensures
            final(content)@ == old(content)@ + no_topic_body(self.header.correlation_id, self.session_id),
    {
        put_i32(content, self.header.correlation_id);
        put_u8(content, 0);
        put_i32(content, 0);
        put_i16(content, 0);
        put_i32(content, self.session_id);
        put_compact_count(content, 0);
        put_u8(content, 0);
        assert(compact_count(0) =~= seq![1u8]);
        assert(content@ =~= old(content)@ + no_topic_body(self.header.correlation_id, self.session_id));
    }

    /// Appends the partition list answered for a topic id that the store
    /// lacks: one partition 0 with error UnknownTopicId, offsets 0, nothing
    /// aborted, no records, tag buffer.
    pub fn unknown_topics_response(content: &mut Vec<u8>)
        ensures
            final(content)@ == old(content)@ + unknown_topic_partitions(),
    {
        put_unknown_topic_partitions(content);
    }

    /// The response body, given the logs read from disk.
    pub fn response(&self, store: &MetadataStore, logs: &Vec<FetchLog>) -> (r: Vec<u8>)
        ensures
            r@ == fetch_response_body(
                self.header.correlation_id,
                self.session_id,
                self.topics@,
                store.view(),
                logs@,
            ),
    {
        let ghost f = fetch_topic_response_item(store.view(), logs@);
        let mut r: Vec<u8> = Vec::new();
        if self.topics.len() == 0 {
            self.no_topic_response(&mut r);
            assert(self.topics@ =~= Seq::<FetchTopic>::empty());
            assert(concat_map(self.topics@, f) =~= Seq::<u8>::empty());
            assert(compact_count(0) =~= seq![1u8]);
            assert(r@ =~= fetch_response_body(self.header.correlation_id, self.session_id, self.topics@, store.view(), logs@));
            return r;
        }
        put_i32(&mut r, self.header.correlation_id);
        put_u8(&mut r, 0);
        put_i32(&mut r, 0);
        put_i16(&mut r, 0);
        put_i32(&mut r, self.session_id);
        put_compact_count(&mut r, self.topics.len());
        let ghost start = r@;
        let mut k: usize = 0;
        while k < self.topics.len()
            invariant
                k <= self.topics@.len(),
                f == fetch_topic_response_item(store.view(), logs@),
                r@ == start + concat_map(self.topics@.subrange(0, k as int), f),
            decreases self.topics@.len() - k,
        {
            put_fetch_topic(&mut r, store, logs, &self.topics[k]);
            proof {
                assert(self.topics@.subrange(0, k + 1) =~= self.topics@.subrange(0, k as int).push(self.topics@[k as int]));
                lemma_concat_map_push(self.topics@.subrange(0, k as int), self.topics@[k as int], f);
            }
            k += 1;
        }
        assert(self.topics@.subrange(0, self.topics@.len() as int) =~= self.topics@);
        put_u8(&mut r, 0);
        assert(r@ =~= fetch_response_body(self.header.correlation_id, self.session_id, self.topics@, store.view(), logs@));
        r
    }
}

/// A copy of a name.
fn copy_name(n: &Vec<u8>) -> (r: Vec<u8>)
    ensures
        r@ == n@,
{
    copy_range(n.as_slice(), 0, n.len())
}

} // verus!
