//! DescribeTopicPartitions: the request's topic list and the per-topic answer.
use vstd::prelude::*;
use crate::codec::{
    lemma_bytes_at_concat, lemma_concat_map_item, bytes_at, compact_array, compact_bytes, compact_count, concat_map, get_compact_bytes,
    get_compact_count, get_i32, get_u8, i16_bytes, i32_bytes, i32_item, lemma_concat_map_push,
    put_bytes, put_compact_bytes, put_compact_count, put_compact_i32_array, put_i16, put_i32,
    put_u128, put_u8, u128_bytes,
};
use crate::frame::{Request, RequestHeader};
use crate::metadata::{
    MetadataStore, PartitionRecord, TopicModel, first_named, lemma_split, no_topic_named,
};

verus! {

/// `a` comes before `b` in byte-lexicographic order.
pub open spec fn lex_lt(a: Seq<u8>, b: Seq<u8>) -> bool
    decreases a.len(),
{
    if a.len() == 0 {
        b.len() > 0
    } else if b.len() == 0 {
        false
    } else if a[0] != b[0] {
        a[0] < b[0]
    } else {
        lex_lt(a.drop_first(), b.drop_first())
    }
}

/// No name is followed by one that comes before it.
pub open spec fn sorted_names(s: Seq<Vec<u8>>) -> bool {
    forall|i: int| 0 <= i < s.len() - 1 ==> !lex_lt(#[trigger] s[i + 1]@, s[i]@)
}

pub open spec fn names_view(s: Seq<Vec<u8>>) -> Seq<Seq<u8>> {
    s.map_values(|v: Vec<u8>| v@)
}

/// A requested topic: its name and an empty tag buffer.
pub open spec fn topic_request_item() -> spec_fn(Seq<u8>) -> Seq<u8> {
    |n: Seq<u8>| compact_bytes(n) + seq![0u8]
}

/// Names that the count prefixes can carry.
pub open spec fn names_fit(ys: Seq<Seq<u8>>) -> bool {
    ys.len() < u32::MAX && forall|k: int| 0 <= k < ys.len() ==> #[trigger] ys[k].len() < u32::MAX
}

/// The request payload: topics, partition limit, cursor byte, tag buffer.
pub open spec fn describe_request_bytes(names: Seq<Seq<u8>>, limit: i32, cursor: u8) -> Seq<u8> {
    compact_array(names, topic_request_item()) + i32_bytes(limit) + seq![cursor, 0u8]
}

proof fn lemma_lex_asymmetric(a: Seq<u8>, b: Seq<u8>)
    ensures
        lex_lt(a, b) ==> !lex_lt(b, a),
    decreases a.len(),
{
    if a.len() > 0 && b.len() > 0 && a[0] == b[0] {
        lemma_lex_asymmetric(a.drop_first(), b.drop_first());
    }
}

proof fn lemma_lex_skip(a: Seq<u8>, b: Seq<u8>, i: int)
    requires
        0 <= i <= a.len(),
        i <= b.len(),
        a.subrange(0, i) == b.subrange(0, i),
    ensures
        lex_lt(a, b) == lex_lt(a.subrange(i, a.len() as int), b.subrange(i, b.len() as int)),
    decreases i,
{
    if i > 0 {
        assert(a[0] == a.subrange(0, i)[0]);
        assert(b[0] == b.subrange(0, i)[0]);
        assert(a.drop_first().subrange(0, i - 1) =~= a.subrange(0, i).drop_first());
        assert(b.drop_first().subrange(0, i - 1) =~= b.subrange(0, i).drop_first());
        lemma_lex_skip(a.drop_first(), b.drop_first(), i - 1);
        assert(a.drop_first().subrange(i - 1, a.len() - 1) =~= a.subrange(i, a.len() as int));
        assert(b.drop_first().subrange(i - 1, b.len() - 1) =~= b.subrange(i, b.len() as int));
    } else {
        assert(a.subrange(0, a.len() as int) =~= a);
        assert(b.subrange(0, b.len() as int) =~= b);
    }
}

/// Whether `a` comes before `b` in byte-lexicographic order.
pub fn lex_less(a: &[u8], b: &[u8]) -> (r: bool)
    ensures
        r == lex_lt(a@, b@),
{
    let mut i: usize = 0;
    while i < a.len() && i < b.len() && a[i] == b[i]
        invariant
            i <= a@.len(),
            i <= b@.len(),
            a@.subrange(0, i as int) == b@.subrange(0, i as int),
        decreases a@.len() - i,
    {
        assert(a@.subrange(0, i + 1) =~= a@.subrange(0, i as int).push(a@[i as int]));
        assert(b@.subrange(0, i + 1) =~= b@.subrange(0, i as int).push(b@[i as int]));
        i += 1;
    }
    proof {
        lemma_lex_skip(a@, b@, i as int);
        let (x, y) = (a@.subrange(i as int, a@.len() as int), b@.subrange(i as int, b@.len() as int));
        if x.len() > 0 && y.len() > 0 {
            assert(x[0] == a@[i as int]);
            assert(y[0] == b@[i as int]);
        }
    }
    if i == a.len() {
        i < b.len()
    } else if i == b.len() {
        false
    } else {
        a[i] < b[i]
    }
}

/// Sorts names into byte-lexicographic order.
pub fn sort_names(names: Vec<Vec<u8>>) -> (r: Vec<Vec<u8>>)
    ensures
        sorted_names(r@),
        r@.to_multiset() == names@.to_multiset(),
{
    let ghost all = names@;
    let total = names.len();
    let mut rest = names;
    let mut out: Vec<Vec<u8>> = Vec::new();
    let mut n: usize = 0;
    assert(all.subrange(0, 0) =~= out@);
    while rest.len() > 0
        invariant
            n + rest@.len() == all.len(),
            all.len() == total,
            rest@ == all.subrange(n as int, all.len() as int),
            sorted_names(out@),
            out@.to_multiset() == all.subrange(0, n as int).to_multiset(),
        decreases rest@.len(),
    {
        let x = rest.remove(0);
        assert(x == all[n as int]);
        let mut j: usize = 0;
        while j < out.len() && !lex_less(x.as_slice(), out[j].as_slice())
            invariant
                j <= out@.len(),
                forall|m: int| 0 <= m < j ==> !lex_lt(x@, #[trigger] out@[m]@),
            decreases out@.len() - j,
        {
            j += 1;
        }
        let ghost before = out@;
        out.insert(j, x);
        proof {
            assert(out@ == before.insert(j as int, x));
            vstd::seq_lib::to_multiset_insert(before, j as int, x);
            assert forall|i: int| 0 <= i < out@.len() - 1 implies !lex_lt(#[trigger] out@[i + 1]@, out@[i]@) by {
                if i + 1 < j {
                    assert(out@[i] == before[i] && out@[i + 1] == before[i + 1]);
                    assert(!lex_lt(before[i + 1]@, before[i]@));
                } else if i + 1 == j {
                    assert(out@[i] == before[i]);
                    assert(!lex_lt(x@, before[i]@));
                } else if i == j {
                    assert(out@[i + 1] == before[i as int]);
                    assert(lex_lt(x@, before[i]@));
                    lemma_lex_asymmetric(x@, before[i as int]@);
                } else {
                    assert(out@[i] == before[i - 1] && out@[i + 1] == before[i]);
                    assert(!lex_lt(before[(i - 1) + 1]@, before[i - 1]@));
                }
            }
            assert(all.subrange(0, n + 1) =~= all.subrange(0, n as int).push(x));
            vstd::seq_lib::to_multiset_build(all.subrange(0, n as int), x);
        }
        n += 1;
        assert(rest@ =~= all.subrange(n as int, all.len() as int));
    }
    assert(all.subrange(0, n as int) =~= all);
    out
}

/// A parsed DescribeTopicPartitions request; its names are sorted.
#[derive(Debug)]
pub struct DescribeTopicsRequest {
    pub header: RequestHeader,
    pub topic_names: Vec<Vec<u8>>,
    pub partition_limit: i32,
    pub cursor: u8,
}

/// Reads the requested topic names at `pos`.
fn get_topic_names(b: &[u8], pos: usize) -> (r: Option<(Vec<Vec<u8>>, usize)>)
    ensures
        r matches Some((ns, p)) ==> pos <= p <= b@.len() && b@.subrange(pos as int, p as int)
            == compact_array(names_view(ns@), topic_request_item()),
        forall|ys: Seq<Seq<u8>>|
            names_fit(ys) && #[trigger] bytes_at(b@, pos as int, compact_array(ys, topic_request_item()))
                ==> (r matches Some((ns, p)) && names_view(ns@) == ys && p == pos + compact_array(
                ys,
                topic_request_item(),
            ).len()),
{
    let ghost f = topic_request_item();
    let (n, q) = match get_compact_count(b, pos) {
        Some(x) => x,
        None => {
            proof {
                assert forall|ys: Seq<Seq<u8>>|
                    names_fit(ys) && #[trigger] bytes_at(b@, pos as int, compact_array(ys, f)) implies false by {
                    lemma_bytes_at_concat(b@, pos as int, compact_count(ys.len()), concat_map(ys, f));
                }
            }
            return None;
        },
    };
    proof {
        assert forall|ys: Seq<Seq<u8>>|
            names_fit(ys) && #[trigger] bytes_at(b@, pos as int, compact_array(ys, f)) implies ys.len() == n
            && q == pos + compact_count(ys.len()).len() && bytes_at(b@, q as int, concat_map(ys, f)) by {
            lemma_bytes_at_concat(b@, pos as int, compact_count(ys.len()), concat_map(ys, f));
        }
    }
    let mut names: Vec<Vec<u8>> = Vec::new();
    let mut p = q;
    let mut i: u32 = 0;
    while i < n
        invariant
            pos < q <= p <= b@.len(),
            b@.subrange(pos as int, q as int) == compact_count(n as nat),
            names@.len() == i,
            i <= n,
            f == topic_request_item(),
            b@.subrange(q as int, p as int) == concat_map(names_view(names@), f),
            forall|ys: Seq<Seq<u8>>|
                names_fit(ys) && #[trigger] bytes_at(b@, pos as int, compact_array(ys, f)) ==> ys.len() == n
                    && q == pos + compact_count(ys.len()).len() && bytes_at(b@, q as int, concat_map(ys, f))
                    && names_view(names@) == ys.subrange(0, i as int) && p == q + concat_map(
                    ys.subrange(0, i as int),
                    f,
                ).len(),
        decreases n - i,
    {
        proof {
            assert forall|ys: Seq<Seq<u8>>|
                names_fit(ys) && #[trigger] bytes_at(b@, pos as int, compact_array(ys, f)) implies
                bytes_at(b@, p as int, compact_bytes(ys[i as int])) && bytes_at(
                    b@,
                    p + compact_bytes(ys[i as int]).len(),
                    seq![0u8],
                ) && ys[i as int].len() < u32::MAX by {
                lemma_concat_map_item(b@, q as int, ys, f, i as int);
                lemma_bytes_at_concat(b@, p as int, compact_bytes(ys[i as int]), seq![0u8]);
            }
        }
        let (name, p1) = match get_compact_bytes(b, p) {
            Some(x) => x,
            None => {
                proof {
                    assert forall|ys: Seq<Seq<u8>>|
                        names_fit(ys) && #[trigger] bytes_at(b@, pos as int, compact_array(ys, f)) implies false by {
                        assert(bytes_at(b@, p as int, compact_bytes(ys[i as int])));
                    }
                }
                return None;
            },
        };
        let (tag, p2) = match get_u8(b, p1) {
            Some(x) => x,
            None => {
                proof {
                    assert forall|ys: Seq<Seq<u8>>|
                        names_fit(ys) && #[trigger] bytes_at(b@, pos as int, compact_array(ys, f)) implies false by {
                        assert(bytes_at(b@, p as int, compact_bytes(ys[i as int])));
                    }
                }
                return None;
            },
        };
        if tag != 0 {
            proof {
                assert forall|ys: Seq<Seq<u8>>|
                    names_fit(ys) && #[trigger] bytes_at(b@, pos as int, compact_array(ys, f)) implies false by {
                    assert(bytes_at(b@, p as int, compact_bytes(ys[i as int])));
                }
            }
            return None;
        }
        proof {
            lemma_concat_map_push(names_view(names@), name@, f);
            lemma_split(b@, q as int, p as int, p1 as int);
            lemma_split(b@, q as int, p1 as int, p2 as int);
            assert(names_view(names@.push(name)) =~= names_view(names@).push(name@));
            assert(b@.subrange(p as int, p2 as int) =~= compact_bytes(name@) + seq![0u8]);
        }
        let ghost before = names@;
        names.push(name);
        proof {
            assert forall|ys: Seq<Seq<u8>>|
                names_fit(ys) && #[trigger] bytes_at(b@, pos as int, compact_array(ys, f)) implies
                names_view(names@) == ys.subrange(0, i + 1) && p2 == q + concat_map(ys.subrange(0, i + 1), f).len() by {
                lemma_concat_map_item(b@, q as int, ys, f, i as int);
                assert(names_view(names@) =~= names_view(before).push(name@));
                assert(ys.subrange(0, i + 1) =~= ys.subrange(0, i as int).push(ys[i as int]));
            }
        }
        p = p2;
        i += 1;
    }
    proof {
        lemma_split(b@, pos as int, q as int, p as int);
        assert forall|ys: Seq<Seq<u8>>|
            names_fit(ys) && #[trigger] bytes_at(b@, pos as int, compact_array(ys, f)) implies names_view(names@) == ys
            && p == pos + compact_array(ys, f).len() by {
            assert(ys.subrange(0, ys.len() as int) =~= ys);
        }
    }
    Some((names, p))
}

impl DescribeTopicsRequest {
    /// Reads the payload of a request; `None` where it is malformed.
    pub fn new(request: Request) -> (r: Option<DescribeTopicsRequest>)
        ensures
            r matches Some(d) ==> d.header == request.header && sorted_names(d.topic_names@)
                && exists|asked: Seq<Vec<u8>>|
                bytes_at(
                    request.payload@,
                    0,
                    describe_request_bytes(names_view(asked), d.partition_limit, d.cursor),
                ) && #[trigger] asked.to_multiset() == d.topic_names@.to_multiset(),
            forall|ys: Seq<Seq<u8>>, limit: i32, cursor: u8|
                names_fit(ys) && #[trigger] bytes_at(request.payload@, 0, describe_request_bytes(ys, limit, cursor))
                    ==> (r matches Some(d) && d.partition_limit == limit && d.cursor == cursor && exists|
                    asked: Seq<Vec<u8>>,
                | names_view(asked) == ys && #[trigger] asked.to_multiset() == d.topic_names@.to_multiset()),
    {
        let ghost pl = request.payload@;
        proof {
            assert forall|ys: Seq<Seq<u8>>, limit: i32, cursor: u8|
                names_fit(ys) && #[trigger] bytes_at(pl, 0, describe_request_bytes(ys, limit, cursor)) implies
                bytes_at(pl, 0, compact_array(ys, topic_request_item())) && bytes_at(
                    pl,
                    compact_array(ys, topic_request_item()).len() as int,
                    i32_bytes(limit),
                ) && bytes_at(pl, compact_array(ys, topic_request_item()).len() + 4int, seq![cursor])
                && bytes_at(pl, compact_array(ys, topic_request_item()).len() + 5int, seq![0u8]) by {
                let a = compact_array(ys, topic_request_item());
                lemma_bytes_at_concat(pl, 0, a + i32_bytes(limit), seq![cursor, 0u8]);
                lemma_bytes_at_concat(pl, 0, a, i32_bytes(limit));
                assert(seq![cursor, 0u8] =~= seq![cursor] + seq![0u8]);
                lemma_bytes_at_concat(pl, a.len() + 4int, seq![cursor], seq![0u8]);
            }
        }
        let Request { header, payload, .. } = request;
        let b = payload.as_slice();
        let (asked, p1) = get_topic_names(b, 0)?;
        let (partition_limit, p2) = get_i32(b, p1)?;
        let (cursor, p3) = get_u8(b, p2)?;
        let (tag, p4) = get_u8(b, p3)?;
        if tag != 0 {
            return None;
        }
        let ghost av = asked@;
        proof {
            lemma_split(b@, 0, p1 as int, p2 as int);
            lemma_split(b@, 0, p2 as int, p4 as int);
            assert(b@.subrange(p2 as int, p4 as int) =~= seq![cursor, 0u8]);
        }
        let topic_names = sort_names(asked);
        let d = DescribeTopicsRequest { header, topic_names, partition_limit, cursor };
        assert(bytes_at(payload@, 0, describe_request_bytes(names_view(av), partition_limit, cursor)));
        proof {
            assert forall|ys: Seq<Seq<u8>>, limit: i32, cursor: u8|
                names_fit(ys) && #[trigger] bytes_at(pl, 0, describe_request_bytes(ys, limit, cursor)) implies exists|
                    asked: Seq<Vec<u8>>,
                | names_view(asked) == ys && #[trigger] asked.to_multiset() == d.topic_names@.to_multiset() by {
                assert(names_view(av) == ys);
                assert(av.to_multiset() == d.topic_names@.to_multiset());
            }
        }
        Some(d)
    }
}

// ---------------------------------------------------------------------------
// The response
// ---------------------------------------------------------------------------

/// The place of the first topic named `name`, if any.
pub open spec fn lookup_name(ts: Seq<TopicModel>, name: Seq<u8>) -> Option<int> {
    if exists|i: int| first_named(ts, name, i) {
        Some(choose|i: int| first_named(ts, name, i))
    } else {
        None
    }
}

proof fn lemma_lookup_name(ts: Seq<TopicModel>, name: Seq<u8>, i: int)
    requires
        first_named(ts, name, i),
    ensures
        lookup_name(ts, name) == Some(i),
{
    let j = choose|j: int| first_named(ts, name, j);
    assert(first_named(ts, name, j));
    if j < i {
        assert(ts[j].0 != name);
    } else if i < j {
        assert(ts[i].0 != name);
    }
}

/// A partition of a known topic: no error, id, leader, leader epoch,
/// replicas, in-sync replicas, three empty arrays, tag buffer.
pub open spec fn partition_desc_bytes(p: PartitionRecord) -> Seq<u8> {
    i16_bytes(0) + i32_bytes(p.partition_id) + i32_bytes(p.leader) + i32_bytes(p.leader_epoch)
        + compact_array(p.replication_ids@, i32_item()) + compact_array(
        p.in_sync_replica_ids@,
        i32_item(),
    ) + seq![1u8, 1u8, 1u8, 0u8]
}

pub open spec fn partition_desc_item() -> spec_fn(PartitionRecord) -> Seq<u8> {
    |p: PartitionRecord| partition_desc_bytes(p)
}

/// The answer for one topic name.
pub open spec fn topic_result_bytes(ts: Seq<TopicModel>, name: Seq<u8>) -> Seq<u8> {
    match lookup_name(ts, name) {
        Some(i) => i16_bytes(0) + compact_bytes(name) + u128_bytes(ts[i].1) + seq![0u8]
            + compact_array(ts[i].2, partition_desc_item()) + i32_bytes(0) + seq![0u8],
        None => i16_bytes(3) + compact_bytes(name) + u128_bytes(0) + seq![0u8] + compact_count(0)
            + i32_bytes(0) + seq![0u8],
    }
}

pub open spec fn topic_result_item(ts: Seq<TopicModel>) -> spec_fn(Seq<u8>) -> Seq<u8> {
    |n: Seq<u8>| topic_result_bytes(ts, n)
}

/// The response body: correlation id, header tag, throttle time, one
/// answer per name, no next cursor, tag buffer.
pub open spec fn describe_response_body(cid: i32, names: Seq<Seq<u8>>, ts: Seq<TopicModel>) -> Seq<u8> {
    i32_bytes(cid) + seq![0u8] + i32_bytes(0) + compact_array(names, topic_result_item(ts)) + seq![
        0xffu8,
        0u8,
    ]
}

fn put_partition_desc(buf: &mut Vec<u8>, p: &PartitionRecord)
    ensures
        final(buf)@ == old(buf)@ + partition_desc_bytes(*p),
{
    put_i16(buf, 0);
    put_i32(buf, p.partition_id);
    put_i32(buf, p.leader);
    put_i32(buf, p.leader_epoch);
    put_compact_i32_array(buf, p.replication_ids.as_slice());
    put_compact_i32_array(buf, p.in_sync_replica_ids.as_slice());
    put_u8(buf, 1);
    put_u8(buf, 1);
    put_u8(buf, 1);
    put_u8(buf, 0);
    assert(buf@ =~= old(buf)@ + partition_desc_bytes(*p));
}

impl DescribeTopicsRequest {
    /// Appends the answer for one topic name.
    pub fn topic_response(store: &MetadataStore, name: &[u8], buf: &mut Vec<u8>)
        ensures
            final(buf)@ == old(buf)@ + topic_result_bytes(store.view(), name@),
    {
        let ghost ts = store.view();
        match store.find_name(name) {
            Some(i) => {
                proof {
                    lemma_lookup_name(ts, name@, i as int);
                }
                let entry = &store.topics[i];
                put_i16(buf, 0);
                put_compact_bytes(buf, name);
                put_u128(buf, entry.uuid);
                put_u8(buf, 0);
                let ps = &entry.partitions;
                put_compact_count(buf, ps.len());
                let ghost start = buf@;
                let ghost f = partition_desc_item();
                let mut k: usize = 0;
                while k < ps.len()
                    invariant
                        k <= ps@.len(),
                        f == partition_desc_item(),
                        buf@ == start + concat_map(ps@.subrange(0, k as int), f),
                    decreases ps@.len() - k,
                {
                    put_partition_desc(buf, &ps[k]);
                    proof {
                        assert(ps@.subrange(0, k + 1) =~= ps@.subrange(0, k as int).push(ps@[k as int]));
                        lemma_concat_map_push(ps@.subrange(0, k as int), ps@[k as int], f);
                    }
                    k += 1;
                }
                assert(ps@.subrange(0, ps@.len() as int) =~= ps@);
                assert(ts[i as int].2 == ps@);
                put_i32(buf, 0);
                put_u8(buf, 0);
                assert(buf@ =~= old(buf)@ + topic_result_bytes(ts, name@));
            },
            None => {
                assert(!exists|i: int| first_named(ts, name@, i));
                put_i16(buf, 3);
                put_compact_bytes(buf, name);
                put_u128(buf, 0);
                put_u8(buf, 0);
                put_compact_count(buf, 0);
                put_i32(buf, 0);
                put_u8(buf, 0);
                assert(buf@ =~= old(buf)@ + topic_result_bytes(ts, name@));
            },
        }
    }

    /// The response body.
    pub fn response(&self, store: &MetadataStore) -> (r: Vec<u8>)
        ensures
            r@ == describe_response_body(
                self.header.correlation_id,
                names_view(self.topic_names@),
                store.view(),
            ),
    {
        let ghost ts = store.view();
        let ghost f = topic_result_item(ts);
        let ghost names = names_view(self.topic_names@);
        let mut r: Vec<u8> = Vec::new();
        put_i32(&mut r, self.header.correlation_id);
        put_u8(&mut r, 0);
        put_i32(&mut r, 0);
        put_compact_count(&mut r, self.topic_names.len());
        let ghost start = r@;
        let mut k: usize = 0;
        while k < self.topic_names.len()
            invariant
                k <= self.topic_names@.len(),
                f == topic_result_item(ts),
                ts == store.view(),
                names == names_view(self.topic_names@),
                r@ == start + concat_map(names.subrange(0, k as int), f),
            decreases self.topic_names@.len() - k,
        {
            DescribeTopicsRequest::topic_response(store, self.topic_names[k].as_slice(), &mut r);
            proof {
                assert(names.subrange(0, k + 1) =~= names.subrange(0, k as int).push(names[k as int]));
                lemma_concat_map_push(names.subrange(0, k as int), names[k as int], f);
            }
            k += 1;
        }
        assert(names.subrange(0, names.len() as int) =~= names);
        put_u8(&mut r, 0xff);
        put_u8(&mut r, 0);
        assert(r@ =~= describe_response_body(self.header.correlation_id, names, ts));
        r
    }
}

} // verus!
