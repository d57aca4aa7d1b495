//! The cluster-metadata log: record batches of topic, partition and feature
//! records, and the index of topics built from them.
use vstd::prelude::*;
use crate::frame::opt_view;
use crate::codec::{
    lemma_bytes_at_concat, bytes_at, concat_map, lemma_concat_map_push, bytes_eq, compact_array, compact_bytes, copy_range, get_canonical_varint, get_compact_bytes,
    get_compact_i32_array, get_compact_u128_array, get_i16, get_i32, get_i64, get_i8, get_u128,
    get_u8, i16_bytes, i32_bytes, i32_item, i64_bytes, i8_bytes, svarint, u128_bytes, u128_item,
    uvarint,
};

verus! {

/// `b[a..c]` is `b[a..m]` followed by `b[m..c]`.
pub proof fn lemma_split(b: Seq<u8>, a: int, m: int, c: int)
    requires
        0 <= a <= m <= c <= b.len(),
    ensures
        b.subrange(a, c) == b.subrange(a, m) + b.subrange(m, c),
{
    assert(b.subrange(a, c) =~= b.subrange(a, m) + b.subrange(m, c));
}

#[derive(Debug)]
pub struct FeatureRecord {
    pub version: i8,
    pub name: Vec<u8>,
    pub feature_level: i16,
    pub tags: i8,
}

#[derive(Debug)]
pub struct TopicRecord {
    pub version: i8,
    pub topic_name: Vec<u8>,
    pub uuid: u128,
    pub tags: i8,
}

#[derive(Debug)]
pub struct PartitionRecord {
    pub version: i8,
    pub partition_id: i32,
    pub uuid: u128,
    pub replication_ids: Vec<i32>,
    pub in_sync_replica_ids: Vec<i32>,
    pub removing_replica_ids: Vec<i32>,
    pub adding_replica_ids: Vec<i32>,
    pub leader: i32,
    pub leader_epoch: i32,
    pub partition_epoch: i32,
    pub directories: Vec<u128>,
    pub tags: i8,
}

/// The payload of a metadata record.
#[derive(Debug)]
pub enum RecordType {
    Feature(FeatureRecord),
    Topic(TopicRecord),
    Partition(PartitionRecord),
}

pub open spec fn feature_record_bytes(f: FeatureRecord) -> Seq<u8> {
    i8_bytes(f.version) + compact_bytes(f.name@) + i16_bytes(f.feature_level) + i8_bytes(f.tags)
}

pub open spec fn topic_record_bytes(t: TopicRecord) -> Seq<u8> {
    i8_bytes(t.version) + compact_bytes(t.topic_name@) + u128_bytes(t.uuid) + i8_bytes(t.tags)
}

pub open spec fn partition_record_bytes(p: PartitionRecord) -> Seq<u8> {
    i8_bytes(p.version) + i32_bytes(p.partition_id) + u128_bytes(p.uuid) + compact_array(
        p.replication_ids@,
        i32_item(),
    ) + compact_array(p.in_sync_replica_ids@, i32_item()) + compact_array(
        p.removing_replica_ids@,
        i32_item(),
    ) + compact_array(p.adding_replica_ids@, i32_item()) + i32_bytes(p.leader) + i32_bytes(
        p.leader_epoch,
    ) + i32_bytes(p.partition_epoch) + compact_array(p.directories@, u128_item()) + i8_bytes(
        p.tags,
    )
}

/// Two payloads of the same kind with the same fields.
pub open spec fn record_type_same(a: RecordType, t: RecordType) -> bool {
    match (a, t) {
        (RecordType::Feature(x), RecordType::Feature(y)) => x.version == y.version && x.name@
            == y.name@ && x.feature_level == y.feature_level && x.tags == y.tags,
        (RecordType::Topic(x), RecordType::Topic(y)) => x.version == y.version && x.topic_name@
            == y.topic_name@ && x.uuid == y.uuid && x.tags == y.tags,
        (RecordType::Partition(x), RecordType::Partition(y)) => partition_record_same(x, y),
        _ => false,
    }
}

/// The compact fields of a payload fit their count prefixes.
pub open spec fn record_type_fits(t: RecordType) -> bool {
    match t {
        RecordType::Feature(f) => f.name@.len() < u32::MAX,
        RecordType::Topic(r) => r.topic_name@.len() < u32::MAX,
        RecordType::Partition(p) => partition_record_fits(p),
    }
}

/// Type code of each kind of payload.
pub open spec fn record_type_code(t: RecordType) -> i8 {
    match t {
        RecordType::Feature(_) => 12,
        RecordType::Topic(_) => 2,
        RecordType::Partition(_) => 3,
    }
}

/// A record's value: frame version, type code, then the payload's fields.
pub open spec fn payload_bytes(frame_version: i8, t: RecordType) -> Seq<u8> {
    i8_bytes(frame_version) + i8_bytes(record_type_code(t)) + match t {
        RecordType::Feature(f) => feature_record_bytes(f),
        RecordType::Topic(r) => topic_record_bytes(r),
        RecordType::Partition(p) => partition_record_bytes(p),
    }
}


/// The arrays of a partition record fit the count prefix.
pub open spec fn partition_record_fits(t: PartitionRecord) -> bool {
    &&& t.replication_ids@.len() < u32::MAX
    &&& t.in_sync_replica_ids@.len() < u32::MAX
    &&& t.removing_replica_ids@.len() < u32::MAX
    &&& t.adding_replica_ids@.len() < u32::MAX
    &&& t.directories@.len() < u32::MAX
}

/// Two partition records hold the same fields.
pub open spec fn partition_record_same(a: PartitionRecord, t: PartitionRecord) -> bool {
    &&& a.version == t.version && a.partition_id == t.partition_id && a.uuid == t.uuid
    &&& a.replication_ids@ == t.replication_ids@
    &&& a.in_sync_replica_ids@ == t.in_sync_replica_ids@
    &&& a.removing_replica_ids@ == t.removing_replica_ids@
    &&& a.adding_replica_ids@ == t.adding_replica_ids@
    &&& a.leader == t.leader && a.leader_epoch == t.leader_epoch && a.partition_epoch == t.partition_epoch
    &&& a.directories@ == t.directories@
    &&& a.tags == t.tags
}

proof fn lemma_feature_record_bytes_fields(b: Seq<u8>, pos: int, t: FeatureRecord)
    requires
        bytes_at(b, pos, feature_record_bytes(t)),
    ensures
        bytes_at(b, pos, i8_bytes(t.version)),
        bytes_at(b, pos + (i8_bytes(t.version)).len(), compact_bytes(t.name@)),
        bytes_at(b, pos + (i8_bytes(t.version)).len() + (compact_bytes(t.name@)).len(), i16_bytes(t.feature_level)),
        bytes_at(b, pos + (i8_bytes(t.version)).len() + (compact_bytes(t.name@)).len() + (i16_bytes(t.feature_level)).len(), i8_bytes(t.tags)),
        feature_record_bytes(t).len() == pos + (i8_bytes(t.version)).len() + (compact_bytes(t.name@)).len() + (i16_bytes(t.feature_level)).len() + (i8_bytes(t.tags)).len() - pos,
{
    lemma_bytes_at_concat(b, pos, i8_bytes(t.version) + compact_bytes(t.name@) + i16_bytes(t.feature_level), i8_bytes(t.tags));
    lemma_bytes_at_concat(b, pos, i8_bytes(t.version) + compact_bytes(t.name@), i16_bytes(t.feature_level));
    lemma_bytes_at_concat(b, pos, i8_bytes(t.version), compact_bytes(t.name@));
}

proof fn lemma_topic_record_bytes_fields(b: Seq<u8>, pos: int, t: TopicRecord)
    requires
        bytes_at(b, pos, topic_record_bytes(t)),
    ensures
        bytes_at(b, pos, i8_bytes(t.version)),
        bytes_at(b, pos + (i8_bytes(t.version)).len(), compact_bytes(t.topic_name@)),
        bytes_at(b, pos + (i8_bytes(t.version)).len() + (compact_bytes(t.topic_name@)).len(), u128_bytes(t.uuid)),
        bytes_at(b, pos + (i8_bytes(t.version)).len() + (compact_bytes(t.topic_name@)).len() + (u128_bytes(t.uuid)).len(), i8_bytes(t.tags)),
        topic_record_bytes(t).len() == pos + (i8_bytes(t.version)).len() + (compact_bytes(t.topic_name@)).len() + (u128_bytes(t.uuid)).len() + (i8_bytes(t.tags)).len() - pos,
{
    lemma_bytes_at_concat(b, pos, i8_bytes(t.version) + compact_bytes(t.topic_name@) + u128_bytes(t.uuid), i8_bytes(t.tags));
    lemma_bytes_at_concat(b, pos, i8_bytes(t.version) + compact_bytes(t.topic_name@), u128_bytes(t.uuid));
    lemma_bytes_at_concat(b, pos, i8_bytes(t.version), compact_bytes(t.topic_name@));
}

proof fn lemma_partition_record_bytes_fields(b: Seq<u8>, pos: int, t: PartitionRecord)
    requires
        bytes_at(b, pos, partition_record_bytes(t)),
    ensures
        bytes_at(b, pos, i8_bytes(t.version)),
        bytes_at(b, pos + (i8_bytes(t.version)).len(), i32_bytes(t.partition_id)),
        bytes_at(b, pos + (i8_bytes(t.version)).len() + (i32_bytes(t.partition_id)).len(), u128_bytes(t.uuid)),
        bytes_at(b, pos + (i8_bytes(t.version)).len() + (i32_bytes(t.partition_id)).len() + (u128_bytes(t.uuid)).len(), compact_array(t.replication_ids@, i32_item())),
        bytes_at(b, pos + (i8_bytes(t.version)).len() + (i32_bytes(t.partition_id)).len() + (u128_bytes(t.uuid)).len() + (compact_array(t.replication_ids@, i32_item())).len(), compact_array(t.in_sync_replica_ids@, i32_item())),
        bytes_at(b, pos + (i8_bytes(t.version)).len() + (i32_bytes(t.partition_id)).len() + (u128_bytes(t.uuid)).len() + (compact_array(t.replication_ids@, i32_item())).len() + (compact_array(t.in_sync_replica_ids@, i32_item())).len(), compact_array(t.removing_replica_ids@, i32_item())),
        bytes_at(b, pos + (i8_bytes(t.version)).len() + (i32_bytes(t.partition_id)).len() + (u128_bytes(t.uuid)).len() + (compact_array(t.replication_ids@, i32_item())).len() + (compact_array(t.in_sync_replica_ids@, i32_item())).len() + (compact_array(t.removing_replica_ids@, i32_item())).len(), compact_array(t.adding_replica_ids@, i32_item())),
        bytes_at(b, pos + (i8_bytes(t.version)).len() + (i32_bytes(t.partition_id)).len() + (u128_bytes(t.uuid)).len() + (compact_array(t.replication_ids@, i32_item())).len() + (compact_array(t.in_sync_replica_ids@, i32_item())).len() + (compact_array(t.removing_replica_ids@, i32_item())).len() + (compact_array(t.adding_replica_ids@, i32_item())).len(), i32_bytes(t.leader)),
        bytes_at(b, pos + (i8_bytes(t.version)).len() + (i32_bytes(t.partition_id)).len() + (u128_bytes(t.uuid)).len() + (compact_array(t.replication_ids@, i32_item())).len() + (compact_array(t.in_sync_replica_ids@, i32_item())).len() + (compact_array(t.removing_replica_ids@, i32_item())).len() + (compact_array(t.adding_replica_ids@, i32_item())).len() + (i32_bytes(t.leader)).len(), i32_bytes(t.leader_epoch)),
        bytes_at(b, pos + (i8_bytes(t.version)).len() + (i32_bytes(t.partition_id)).len() + (u128_bytes(t.uuid)).len() + (compact_array(t.replication_ids@, i32_item())).len() + (compact_array(t.in_sync_replica_ids@, i32_item())).len() + (compact_array(t.removing_replica_ids@, i32_item())).len() + (compact_array(t.adding_replica_ids@, i32_item())).len() + (i32_bytes(t.leader)).len() + (i32_bytes(t.leader_epoch)).len(), i32_bytes(t.partition_epoch)),
        bytes_at(b, pos + (i8_bytes(t.version)).len() + (i32_bytes(t.partition_id)).len() + (u128_bytes(t.uuid)).len() + (compact_array(t.replication_ids@, i32_item())).len() + (compact_array(t.in_sync_replica_ids@, i32_item())).len() + (compact_array(t.removing_replica_ids@, i32_item())).len() + (compact_array(t.adding_replica_ids@, i32_item())).len() + (i32_bytes(t.leader)).len() + (i32_bytes(t.leader_epoch)).len() + (i32_bytes(t.partition_epoch)).len(), compact_array(t.directories@, u128_item())),
        bytes_at(b, pos + (i8_bytes(t.version)).len() + (i32_bytes(t.partition_id)).len() + (u128_bytes(t.uuid)).len() + (compact_array(t.replication_ids@, i32_item())).len() + (compact_array(t.in_sync_replica_ids@, i32_item())).len() + (compact_array(t.removing_replica_ids@, i32_item())).len() + (compact_array(t.adding_replica_ids@, i32_item())).len() + (i32_bytes(t.leader)).len() + (i32_bytes(t.leader_epoch)).len() + (i32_bytes(t.partition_epoch)).len() + (compact_array(t.directories@, u128_item())).len(), i8_bytes(t.tags)),
        partition_record_bytes(t).len() == pos + (i8_bytes(t.version)).len() + (i32_bytes(t.partition_id)).len() + (u128_bytes(t.uuid)).len() + (compact_array(t.replication_ids@, i32_item())).len() + (compact_array(t.in_sync_replica_ids@, i32_item())).len() + (compact_array(t.removing_replica_ids@, i32_item())).len() + (compact_array(t.adding_replica_ids@, i32_item())).len() + (i32_bytes(t.leader)).len() + (i32_bytes(t.leader_epoch)).len() + (i32_bytes(t.partition_epoch)).len() + (compact_array(t.directories@, u128_item())).len() + (i8_bytes(t.tags)).len() - pos,
{
    lemma_bytes_at_concat(b, pos, i8_bytes(t.version) + i32_bytes(t.partition_id) + u128_bytes(t.uuid) + compact_array(t.replication_ids@, i32_item()) + compact_array(t.in_sync_replica_ids@, i32_item()) + compact_array(t.removing_replica_ids@, i32_item()) + compact_array(t.adding_replica_ids@, i32_item()) + i32_bytes(t.leader) + i32_bytes(t.leader_epoch) + i32_bytes(t.partition_epoch) + compact_array(t.directories@, u128_item()), i8_bytes(t.tags));
    lemma_bytes_at_concat(b, pos, i8_bytes(t.version) + i32_bytes(t.partition_id) + u128_bytes(t.uuid) + compact_array(t.replication_ids@, i32_item()) + compact_array(t.in_sync_replica_ids@, i32_item()) + compact_array(t.removing_replica_ids@, i32_item()) + compact_array(t.adding_replica_ids@, i32_item()) + i32_bytes(t.leader) + i32_bytes(t.leader_epoch) + i32_bytes(t.partition_epoch), compact_array(t.directories@, u128_item()));
    lemma_bytes_at_concat(b, pos, i8_bytes(t.version) + i32_bytes(t.partition_id) + u128_bytes(t.uuid) + compact_array(t.replication_ids@, i32_item()) + compact_array(t.in_sync_replica_ids@, i32_item()) + compact_array(t.removing_replica_ids@, i32_item()) + compact_array(t.adding_replica_ids@, i32_item()) + i32_bytes(t.leader) + i32_bytes(t.leader_epoch), i32_bytes(t.partition_epoch));
    lemma_bytes_at_concat(b, pos, i8_bytes(t.version) + i32_bytes(t.partition_id) + u128_bytes(t.uuid) + compact_array(t.replication_ids@, i32_item()) + compact_array(t.in_sync_replica_ids@, i32_item()) + compact_array(t.removing_replica_ids@, i32_item()) + compact_array(t.adding_replica_ids@, i32_item()) + i32_bytes(t.leader), i32_bytes(t.leader_epoch));
    lemma_bytes_at_concat(b, pos, i8_bytes(t.version) + i32_bytes(t.partition_id) + u128_bytes(t.uuid) + compact_array(t.replication_ids@, i32_item()) + compact_array(t.in_sync_replica_ids@, i32_item()) + compact_array(t.removing_replica_ids@, i32_item()) + compact_array(t.adding_replica_ids@, i32_item()), i32_bytes(t.leader));
    lemma_bytes_at_concat(b, pos, i8_bytes(t.version) + i32_bytes(t.partition_id) + u128_bytes(t.uuid) + compact_array(t.replication_ids@, i32_item()) + compact_array(t.in_sync_replica_ids@, i32_item()) + compact_array(t.removing_replica_ids@, i32_item()), compact_array(t.adding_replica_ids@, i32_item()));
    lemma_bytes_at_concat(b, pos, i8_bytes(t.version) + i32_bytes(t.partition_id) + u128_bytes(t.uuid) + compact_array(t.replication_ids@, i32_item()) + compact_array(t.in_sync_replica_ids@, i32_item()), compact_array(t.removing_replica_ids@, i32_item()));
    lemma_bytes_at_concat(b, pos, i8_bytes(t.version) + i32_bytes(t.partition_id) + u128_bytes(t.uuid) + compact_array(t.replication_ids@, i32_item()), compact_array(t.in_sync_replica_ids@, i32_item()));
    lemma_bytes_at_concat(b, pos, i8_bytes(t.version) + i32_bytes(t.partition_id) + u128_bytes(t.uuid), compact_array(t.replication_ids@, i32_item()));
    lemma_bytes_at_concat(b, pos, i8_bytes(t.version) + i32_bytes(t.partition_id), u128_bytes(t.uuid));
    lemma_bytes_at_concat(b, pos, i8_bytes(t.version), i32_bytes(t.partition_id));
}

proof fn lemma_batch_header_bytes_fields(b: Seq<u8>, pos: int, t: RecordBatchHeader)
    requires
        bytes_at(b, pos, batch_header_bytes(t)),
    ensures
        bytes_at(b, pos, i32_bytes(t.leader_epoch)),
        bytes_at(b, pos + (i32_bytes(t.leader_epoch)).len(), i8_bytes(t.magic)),
        bytes_at(b, pos + (i32_bytes(t.leader_epoch)).len() + (i8_bytes(t.magic)).len(), i32_bytes(t.crc)),
        bytes_at(b, pos + (i32_bytes(t.leader_epoch)).len() + (i8_bytes(t.magic)).len() + (i32_bytes(t.crc)).len(), i16_bytes(t.attributes)),
        bytes_at(b, pos + (i32_bytes(t.leader_epoch)).len() + (i8_bytes(t.magic)).len() + (i32_bytes(t.crc)).len() + (i16_bytes(t.attributes)).len(), i32_bytes(t.last_offset_delta)),
        bytes_at(b, pos + (i32_bytes(t.leader_epoch)).len() + (i8_bytes(t.magic)).len() + (i32_bytes(t.crc)).len() + (i16_bytes(t.attributes)).len() + (i32_bytes(t.last_offset_delta)).len(), i64_bytes(t.base_timestamp)),
        bytes_at(b, pos + (i32_bytes(t.leader_epoch)).len() + (i8_bytes(t.magic)).len() + (i32_bytes(t.crc)).len() + (i16_bytes(t.attributes)).len() + (i32_bytes(t.last_offset_delta)).len() + (i64_bytes(t.base_timestamp)).len(), i64_bytes(t.max_timestamp)),
        bytes_at(b, pos + (i32_bytes(t.leader_epoch)).len() + (i8_bytes(t.magic)).len() + (i32_bytes(t.crc)).len() + (i16_bytes(t.attributes)).len() + (i32_bytes(t.last_offset_delta)).len() + (i64_bytes(t.base_timestamp)).len() + (i64_bytes(t.max_timestamp)).len(), i64_bytes(t.producer_id)),
        bytes_at(b, pos + (i32_bytes(t.leader_epoch)).len() + (i8_bytes(t.magic)).len() + (i32_bytes(t.crc)).len() + (i16_bytes(t.attributes)).len() + (i32_bytes(t.last_offset_delta)).len() + (i64_bytes(t.base_timestamp)).len() + (i64_bytes(t.max_timestamp)).len() + (i64_bytes(t.producer_id)).len(), i16_bytes(t.producer_epoch)),
        bytes_at(b, pos + (i32_bytes(t.leader_epoch)).len() + (i8_bytes(t.magic)).len() + (i32_bytes(t.crc)).len() + (i16_bytes(t.attributes)).len() + (i32_bytes(t.last_offset_delta)).len() + (i64_bytes(t.base_timestamp)).len() + (i64_bytes(t.max_timestamp)).len() + (i64_bytes(t.producer_id)).len() + (i16_bytes(t.producer_epoch)).len(), i32_bytes(t.base_sequence)),
        batch_header_bytes(t).len() == pos + (i32_bytes(t.leader_epoch)).len() + (i8_bytes(t.magic)).len() + (i32_bytes(t.crc)).len() + (i16_bytes(t.attributes)).len() + (i32_bytes(t.last_offset_delta)).len() + (i64_bytes(t.base_timestamp)).len() + (i64_bytes(t.max_timestamp)).len() + (i64_bytes(t.producer_id)).len() + (i16_bytes(t.producer_epoch)).len() + (i32_bytes(t.base_sequence)).len() - pos,
{
    lemma_bytes_at_concat(b, pos, i32_bytes(t.leader_epoch) + i8_bytes(t.magic) + i32_bytes(t.crc) + i16_bytes(t.attributes) + i32_bytes(t.last_offset_delta) + i64_bytes(t.base_timestamp) + i64_bytes(t.max_timestamp) + i64_bytes(t.producer_id) + i16_bytes(t.producer_epoch), i32_bytes(t.base_sequence));
    lemma_bytes_at_concat(b, pos, i32_bytes(t.leader_epoch) + i8_bytes(t.magic) + i32_bytes(t.crc) + i16_bytes(t.attributes) + i32_bytes(t.last_offset_delta) + i64_bytes(t.base_timestamp) + i64_bytes(t.max_timestamp) + i64_bytes(t.producer_id), i16_bytes(t.producer_epoch));
    lemma_bytes_at_concat(b, pos, i32_bytes(t.leader_epoch) + i8_bytes(t.magic) + i32_bytes(t.crc) + i16_bytes(t.attributes) + i32_bytes(t.last_offset_delta) + i64_bytes(t.base_timestamp) + i64_bytes(t.max_timestamp), i64_bytes(t.producer_id));
    lemma_bytes_at_concat(b, pos, i32_bytes(t.leader_epoch) + i8_bytes(t.magic) + i32_bytes(t.crc) + i16_bytes(t.attributes) + i32_bytes(t.last_offset_delta) + i64_bytes(t.base_timestamp), i64_bytes(t.max_timestamp));
    lemma_bytes_at_concat(b, pos, i32_bytes(t.leader_epoch) + i8_bytes(t.magic) + i32_bytes(t.crc) + i16_bytes(t.attributes) + i32_bytes(t.last_offset_delta), i64_bytes(t.base_timestamp));
    lemma_bytes_at_concat(b, pos, i32_bytes(t.leader_epoch) + i8_bytes(t.magic) + i32_bytes(t.crc) + i16_bytes(t.attributes), i32_bytes(t.last_offset_delta));
    lemma_bytes_at_concat(b, pos, i32_bytes(t.leader_epoch) + i8_bytes(t.magic) + i32_bytes(t.crc), i16_bytes(t.attributes));
    lemma_bytes_at_concat(b, pos, i32_bytes(t.leader_epoch) + i8_bytes(t.magic), i32_bytes(t.crc));
    lemma_bytes_at_concat(b, pos, i32_bytes(t.leader_epoch), i8_bytes(t.magic));
}

impl FeatureRecord {
    pub fn new(b: &[u8], pos: usize) -> (r: Option<(FeatureRecord, usize)>)
        ensures
            r matches Some((t, p)) ==> pos <= p <= b@.len() && b@.subrange(pos as int, p as int)
                == feature_record_bytes(t),
            forall|t: FeatureRecord|
                t.name@.len() < u32::MAX && #[trigger] bytes_at(b@, pos as int, feature_record_bytes(t)) ==> (r matches Some((u, p))
                    && u.version == t.version && u.name@ == t.name@ && u.feature_level == t.feature_level && u.tags == t.tags && p == pos + feature_record_bytes(t).len()),
    {
        let (version, p1) = match get_i8(b, pos) {
            Some(x) => x,
            None => {
                proof {
                    assert forall|t: FeatureRecord| t.name@.len() < u32::MAX && #[trigger] bytes_at(b@, pos as int, feature_record_bytes(t)) implies false by {
                        lemma_feature_record_bytes_fields(b@, pos as int, t);
                    }
                }
                return None;
            },
        };
        let (name, p2) = match get_compact_bytes(b, p1) {
            Some(x) => x,
            None => {
                proof {
                    assert forall|t: FeatureRecord| t.name@.len() < u32::MAX && #[trigger] bytes_at(b@, pos as int, feature_record_bytes(t)) implies false by {
                        lemma_feature_record_bytes_fields(b@, pos as int, t);
                    }
                }
                return None;
            },
        };
        let (feature_level, p3) = match get_i16(b, p2) {
            Some(x) => x,
            None => {
                proof {
                    assert forall|t: FeatureRecord| t.name@.len() < u32::MAX && #[trigger] bytes_at(b@, pos as int, feature_record_bytes(t)) implies false by {
                        lemma_feature_record_bytes_fields(b@, pos as int, t);
                    }
                }
                return None;
            },
        };
        let (tags, p4) = match get_i8(b, p3) {
            Some(x) => x,
            None => {
                proof {
                    assert forall|t: FeatureRecord| t.name@.len() < u32::MAX && #[trigger] bytes_at(b@, pos as int, feature_record_bytes(t)) implies false by {
                        lemma_feature_record_bytes_fields(b@, pos as int, t);
                    }
                }
                return None;
            },
        };
        let u = FeatureRecord { version, name, feature_level, tags };
        proof {
            lemma_split(b@, pos as int, p1 as int, p2 as int);
            lemma_split(b@, pos as int, p2 as int, p3 as int);
            lemma_split(b@, pos as int, p3 as int, p4 as int);
            assert forall|t: FeatureRecord| t.name@.len() < u32::MAX && #[trigger] bytes_at(b@, pos as int, feature_record_bytes(t)) implies u.version == t.version && u.name@ == t.name@ && u.feature_level == t.feature_level && u.tags == t.tags && p4 == pos + feature_record_bytes(t).len() by {
                lemma_feature_record_bytes_fields(b@, pos as int, t);
            }
        }
        Some((u, p4))
    }
}

impl TopicRecord {
    pub fn new(b: &[u8], pos: usize) -> (r: Option<(TopicRecord, usize)>)
        ensures
            r matches Some((t, p)) ==> pos <= p <= b@.len() && b@.subrange(pos as int, p as int)
                == topic_record_bytes(t),
            forall|t: TopicRecord|
                t.topic_name@.len() < u32::MAX && #[trigger] bytes_at(b@, pos as int, topic_record_bytes(t)) ==> (r matches Some((u, p))
                    && u.version == t.version && u.topic_name@ == t.topic_name@ && u.uuid == t.uuid && u.tags == t.tags && p == pos + topic_record_bytes(t).len()),
    {
        let (version, p1) = match get_i8(b, pos) {
            Some(x) => x,
            None => {
                proof {
                    assert forall|t: TopicRecord| t.topic_name@.len() < u32::MAX && #[trigger] bytes_at(b@, pos as int, topic_record_bytes(t)) implies false by {
                        lemma_topic_record_bytes_fields(b@, pos as int, t);
                    }
                }
                return None;
            },
        };
        let (topic_name, p2) = match get_compact_bytes(b, p1) {
            Some(x) => x,
            None => {
                proof {
                    assert forall|t: TopicRecord| t.topic_name@.len() < u32::MAX && #[trigger] bytes_at(b@, pos as int, topic_record_bytes(t)) implies false by {
                        lemma_topic_record_bytes_fields(b@, pos as int, t);
                    }
                }
                return None;
            },
        };
        let (uuid, p3) = match get_u128(b, p2) {
            Some(x) => x,
            None => {
                proof {
                    assert forall|t: TopicRecord| t.topic_name@.len() < u32::MAX && #[trigger] bytes_at(b@, pos as int, topic_record_bytes(t)) implies false by {
                        lemma_topic_record_bytes_fields(b@, pos as int, t);
                    }
                }
                return None;
            },
        };
        let (tags, p4) = match get_i8(b, p3) {
            Some(x) => x,
            None => {
                proof {
                    assert forall|t: TopicRecord| t.topic_name@.len() < u32::MAX && #[trigger] bytes_at(b@, pos as int, topic_record_bytes(t)) implies false by {
                        lemma_topic_record_bytes_fields(b@, pos as int, t);
                    }
                }
                return None;
            },
        };
        let u = TopicRecord { version, topic_name, uuid, tags };
        proof {
            lemma_split(b@, pos as int, p1 as int, p2 as int);
            lemma_split(b@, pos as int, p2 as int, p3 as int);
            lemma_split(b@, pos as int, p3 as int, p4 as int);
            assert forall|t: TopicRecord| t.topic_name@.len() < u32::MAX && #[trigger] bytes_at(b@, pos as int, topic_record_bytes(t)) implies u.version == t.version && u.topic_name@ == t.topic_name@ && u.uuid == t.uuid && u.tags == t.tags && p4 == pos + topic_record_bytes(t).len() by {
                lemma_topic_record_bytes_fields(b@, pos as int, t);
            }
        }
        Some((u, p4))
    }
}

impl PartitionRecord {
    #[verifier::rlimit(100)]
    #[verifier::spinoff_prover]
    pub fn new(b: &[u8], pos: usize) -> (r: Option<(PartitionRecord, usize)>)
        ensures
            r matches Some((t, p)) ==> pos <= p <= b@.len() && b@.subrange(pos as int, p as int)
                == partition_record_bytes(t),
            forall|t: PartitionRecord|
                partition_record_fits(t) && #[trigger] bytes_at(b@, pos as int, partition_record_bytes(t)) ==> (r matches Some((u, p))
                    && partition_record_same(u, t) && p == pos + partition_record_bytes(t).len()),
    {
        let (version, p1) = match get_i8(b, pos) {
            Some(x) => x,
            None => {
                proof {
                    assert forall|t: PartitionRecord| partition_record_fits(t) && #[trigger] bytes_at(b@, pos as int, partition_record_bytes(t)) implies false by {
                        lemma_partition_record_bytes_fields(b@, pos as int, t);
                    }
                }
                return None;
            },
        };
        let (partition_id, p2) = match get_i32(b, p1) {
            Some(x) => x,
            None => {
                proof {
                    assert forall|t: PartitionRecord| partition_record_fits(t) && #[trigger] bytes_at(b@, pos as int, partition_record_bytes(t)) implies false by {
                        lemma_partition_record_bytes_fields(b@, pos as int, t);
                    }
                }
                return None;
            },
        };
        let (uuid, p3) = match get_u128(b, p2) {
            Some(x) => x,
            None => {
                proof {
                    assert forall|t: PartitionRecord| partition_record_fits(t) && #[trigger] bytes_at(b@, pos as int, partition_record_bytes(t)) implies false by {
                        lemma_partition_record_bytes_fields(b@, pos as int, t);
                    }
                }
                return None;
            },
        };
        let (replication_ids, p4) = match get_compact_i32_array(b, p3) {
            Some(x) => x,
            None => {
                proof {
                    assert forall|t: PartitionRecord| partition_record_fits(t) && #[trigger] bytes_at(b@, pos as int, partition_record_bytes(t)) implies false by {
                        lemma_partition_record_bytes_fields(b@, pos as int, t);
                    }
                }
                return None;
            },
        };
        let (in_sync_replica_ids, p5) = match get_compact_i32_array(b, p4) {
            Some(x) => x,
            None => {
                proof {
                    assert forall|t: PartitionRecord| partition_record_fits(t) && #[trigger] bytes_at(b@, pos as int, partition_record_bytes(t)) implies false by {
                        lemma_partition_record_bytes_fields(b@, pos as int, t);
                    }
                }
                return None;
            },
        };
        let (removing_replica_ids, p6) = match get_compact_i32_array(b, p5) {
            Some(x) => x,
            None => {
                proof {
                    assert forall|t: PartitionRecord| partition_record_fits(t) && #[trigger] bytes_at(b@, pos as int, partition_record_bytes(t)) implies false by {
                        lemma_partition_record_bytes_fields(b@, pos as int, t);
                    }
                }
                return None;
            },
        };
        let (adding_replica_ids, p7) = match get_compact_i32_array(b, p6) {
            Some(x) => x,
            None => {
                proof {
                    assert forall|t: PartitionRecord| partition_record_fits(t) && #[trigger] bytes_at(b@, pos as int, partition_record_bytes(t)) implies false by {
                        lemma_partition_record_bytes_fields(b@, pos as int, t);
                    }
                }
                return None;
            },
        };
        let (leader, p8) = match get_i32(b, p7) {
            Some(x) => x,
            None => {
                proof {
                    assert forall|t: PartitionRecord| partition_record_fits(t) && #[trigger] bytes_at(b@, pos as int, partition_record_bytes(t)) implies false by {
                        lemma_partition_record_bytes_fields(b@, pos as int, t);
                    }
                }
                return None;
            },
        };
        let (leader_epoch, p9) = match get_i32(b, p8) {
            Some(x) => x,
            None => {
                proof {
                    assert forall|t: PartitionRecord| partition_record_fits(t) && #[trigger] bytes_at(b@, pos as int, partition_record_bytes(t)) implies false by {
                        lemma_partition_record_bytes_fields(b@, pos as int, t);
                    }
                }
                return None;
            },
        };
        let (partition_epoch, p10) = match get_i32(b, p9) {
            Some(x) => x,
            None => {
                proof {
                    assert forall|t: PartitionRecord| partition_record_fits(t) && #[trigger] bytes_at(b@, pos as int, partition_record_bytes(t)) implies false by {
                        lemma_partition_record_bytes_fields(b@, pos as int, t);
                    }
                }
                return None;
            },
        };
        let (directories, p11) = match get_compact_u128_array(b, p10) {
            Some(x) => x,
            None => {
                proof {
                    assert forall|t: PartitionRecord| partition_record_fits(t) && #[trigger] bytes_at(b@, pos as int, partition_record_bytes(t)) implies false by {
                        lemma_partition_record_bytes_fields(b@, pos as int, t);
                    }
                }
                return None;
            },
        };
        let (tags, p12) = match get_i8(b, p11) {
            Some(x) => x,
            None => {
                proof {
                    assert forall|t: PartitionRecord| partition_record_fits(t) && #[trigger] bytes_at(b@, pos as int, partition_record_bytes(t)) implies false by {
                        lemma_partition_record_bytes_fields(b@, pos as int, t);
                    }
                }
                return None;
            },
        };
        let u = PartitionRecord {
            version,
            partition_id,
            uuid,
            replication_ids,
            in_sync_replica_ids,
            removing_replica_ids,
            adding_replica_ids,
            leader,
            leader_epoch,
            partition_epoch,
            directories,
            tags,
        };
        proof {
            lemma_split(b@, pos as int, p1 as int, p2 as int);
            lemma_split(b@, pos as int, p2 as int, p3 as int);
            lemma_split(b@, pos as int, p3 as int, p4 as int);
            lemma_split(b@, pos as int, p4 as int, p5 as int);
            lemma_split(b@, pos as int, p5 as int, p6 as int);
            lemma_split(b@, pos as int, p6 as int, p7 as int);
            lemma_split(b@, pos as int, p7 as int, p8 as int);
            lemma_split(b@, pos as int, p8 as int, p9 as int);
            lemma_split(b@, pos as int, p9 as int, p10 as int);
            lemma_split(b@, pos as int, p10 as int, p11 as int);
            lemma_split(b@, pos as int, p11 as int, p12 as int);
            assert forall|t: PartitionRecord| partition_record_fits(t) && #[trigger] bytes_at(b@, pos as int, partition_record_bytes(t)) implies partition_record_same(u, t) && p12 == pos + partition_record_bytes(t).len() by {
                lemma_partition_record_bytes_fields(b@, pos as int, t);
            }
        }
        Some((u, p12))
    }
}

/// Why a record could not be read.
#[derive(Debug, Clone, Copy, PartialEq, Eq, Structural)]
pub enum RecordError {
    /// The payload's type code is none of feature, topic or partition.
    UnknownType(i8),
    /// The bytes do not hold a well-formed record.
    Malformed,
}

/// A record of a batch.
#[derive(Debug)]
pub struct Record {
    pub attributes: i8,
    pub timestamp_delta: i32,
    pub offset_delta: i32,
    pub key: Option<Vec<u8>>,
    pub frame_version: i8,
    pub record_type: RecordType,
}

/// A key or value length and its bytes; a null key has length -1.
pub open spec fn key_field(k: Option<Vec<u8>>) -> Seq<u8> {
    match k {
        Some(s) => svarint(s@.len() as int) + s@,
        None => svarint(-1),
    }
}

/// The start of a record body: attributes, timestamp and offset deltas, key.
pub open spec fn record_head_bytes(a: i8, t: i32, o: i32, k: Option<Vec<u8>>) -> Seq<u8> {
    i8_bytes(a) + svarint(t as int) + svarint(o as int) + key_field(k)
}

/// A record's value: its length as a zigzag varint, then the payload.
pub open spec fn value_field(fv: i8, t: RecordType) -> Seq<u8> {
    svarint(payload_bytes(fv, t).len() as int) + payload_bytes(fv, t)
}

/// The bytes of a record after its length: attributes, deltas, key, value,
/// and an empty header list.
pub open spec fn record_body_bytes(r: Record) -> Seq<u8> {
    record_head_bytes(r.attributes, r.timestamp_delta, r.offset_delta, r.key) + value_field(
        r.frame_version,
        r.record_type,
    ) + uvarint(0)
}

/// The fields of a record fit their length prefixes.
pub open spec fn record_fits(r: Record) -> bool {
    &&& record_type_fits(r.record_type)
    &&& key_fits(r.key)
    &&& record_body_bytes(r).len() <= i32::MAX
}

/// Two records with the same fields.
pub open spec fn record_same(a: Record, r: Record) -> bool {
    &&& a.attributes == r.attributes && a.timestamp_delta == r.timestamp_delta
    &&& a.offset_delta == r.offset_delta && opt_view(a.key) == opt_view(r.key)
    &&& a.frame_version == r.frame_version && record_type_same(a.record_type, r.record_type)
}

/// A record: its body's length as a zigzag varint, then the body.
pub open spec fn record_bytes(r: Record) -> Seq<u8> {
    svarint(record_body_bytes(r).len() as int) + record_body_bytes(r)
}

/// Item encoding of a run of records.
pub open spec fn record_item() -> spec_fn(Record) -> Seq<u8> {
    |r: Record| record_bytes(r)
}

impl RecordType {
    /// Reads a record's whole value: frame version, type code, payload.
    pub fn new(value: &[u8]) -> (r: Result<(i8, RecordType), RecordError>)
        ensures
            r matches Ok((fv, t)) ==> value@ == payload_bytes(fv, t),
            r matches Err(RecordError::UnknownType(c)) ==> value@.len() >= 2 && value@.subrange(1, 2) == i8_bytes(c)
                && c != 2 && c != 3 && c != 12,
            forall|fv: i8, t: RecordType|
                record_type_fits(t) && value@ == #[trigger] payload_bytes(fv, t) ==> (r matches Ok((fv2, t2))
                    && fv2 == fv && record_type_same(t2, t)),
            forall|c: i8|
                value@.len() >= 2 && value@.subrange(1, 2) == #[trigger] i8_bytes(c) && c != 2 && c != 3 && c
                    != 12 ==> r == Err::<(i8, RecordType), RecordError>(RecordError::UnknownType(c)),
    {
        proof {
            assert forall|c: i8|
                value@.len() >= 2 && value@.subrange(1, 2) == #[trigger] i8_bytes(c) implies bytes_at(value@, 1, i8_bytes(c)) by {}
        }
        proof {
            assert forall|fv: i8, t: RecordType|
                record_type_fits(t) && value@ == #[trigger] payload_bytes(fv, t) implies {
                    &&& bytes_at(value@, 0, i8_bytes(fv))
                    &&& bytes_at(value@, 1, i8_bytes(record_type_code(t)))
                    &&& t matches RecordType::Topic(x) ==> bytes_at(value@, 2, topic_record_bytes(x)) && value@.len() == 2 + topic_record_bytes(x).len()
                    &&& t matches RecordType::Partition(x) ==> bytes_at(value@, 2, partition_record_bytes(x)) && value@.len() == 2 + partition_record_bytes(x).len()
                    &&& t matches RecordType::Feature(x) ==> bytes_at(value@, 2, feature_record_bytes(x)) && value@.len() == 2 + feature_record_bytes(x).len()
                } by {
                let rest = match t {
                    RecordType::Feature(f) => feature_record_bytes(f),
                    RecordType::Topic(r) => topic_record_bytes(r),
                    RecordType::Partition(p) => partition_record_bytes(p),
                };
                assert(value@.subrange(0, value@.len() as int) =~= value@);
                lemma_bytes_at_concat(value@, 0, i8_bytes(fv) + i8_bytes(record_type_code(t)), rest);
                lemma_bytes_at_concat(value@, 0, i8_bytes(fv), i8_bytes(record_type_code(t)));
            }
        }
        let (fv, q1) = match get_i8(value, 0) {
            Some(x) => x,
            None => return Err(RecordError::Malformed),
        };
        let (code, q2) = match get_i8(value, q1) {
            Some(x) => x,
            None => return Err(RecordError::Malformed),
        };
        let (t, q3) = if code == 2 {
            match TopicRecord::new(value, q2) {
                Some((t, q)) => (RecordType::Topic(t), q),
                None => return Err(RecordError::Malformed),
            }
        } else if code == 3 {
            match PartitionRecord::new(value, q2) {
                Some((t, q)) => (RecordType::Partition(t), q),
                None => return Err(RecordError::Malformed),
            }
        } else if code == 12 {
            match FeatureRecord::new(value, q2) {
                Some((t, q)) => (RecordType::Feature(t), q),
                None => return Err(RecordError::Malformed),
            }
        } else {
            return Err(RecordError::UnknownType(code));
        };
        if q3 != value.len() {
            return Err(RecordError::Malformed);
        }
        proof {
            lemma_split(value@, 0, q1 as int, q2 as int);
            lemma_split(value@, 0, q2 as int, q3 as int);
            assert(value@.subrange(0, q3 as int) =~= value@);
        }
        Ok((fv, t))
    }
}

/// A key whose length an `i32` can carry.
pub open spec fn key_fits(k: Option<Vec<u8>>) -> bool {
    match k {
        Some(s) => s@.len() <= i32::MAX,
        None => true,
    }
}

/// Reads a key: its length as a zigzag varint (-1 for null), then its bytes.
fn get_key_field(b: &[u8], pos: usize) -> (r: Option<(Option<Vec<u8>>, usize)>)
    ensures
        r matches Some((k, p)) ==> pos <= p <= b@.len() && b@.subrange(pos as int, p as int)
            == key_field(k),
        forall|k: Option<Vec<u8>>|
            key_fits(k) && #[trigger] bytes_at(b@, pos as int, key_field(k)) ==> (r matches Some((k2, p))
                && opt_view(k2) == opt_view(k) && p == pos + key_field(k).len()),
{
    proof {
        assert forall|k: Option<Vec<u8>>|
            key_fits(k) && #[trigger] bytes_at(b@, pos as int, key_field(k)) implies match k {
                Some(s) => bytes_at(b@, pos as int, svarint(s@.len() as int)) && bytes_at(
                    b@,
                    pos + svarint(s@.len() as int).len(),
                    s@,
                ) && bytes_at(b@, pos as int, svarint((s@.len() as i32) as int)),
                None => bytes_at(b@, pos as int, svarint((-1i32) as int)),
            } by {
            match k {
                Some(s) => {
                    lemma_bytes_at_concat(b@, pos as int, svarint(s@.len() as int), s@);
                },
                None => {},
            }
        }
    }
    let (key_len, q) = get_canonical_varint(b, pos)?;
    if key_len == -1 {
        Some((None, q))
    } else if key_len < 0 || key_len as usize > b.len() - q {
        None
    } else {
        let k = copy_range(b, q, q + key_len as usize);
        proof {
            lemma_split(b@, pos as int, q as int, q + key_len);
        }
        Some((Some(k), q + key_len as usize))
    }
}

/// Reads the attributes, the two deltas and the key at `pos`.
#[verifier::spinoff_prover]
fn get_record_head(b: &[u8], pos: usize) -> (r: Option<(i8, i32, i32, Option<Vec<u8>>, usize)>)
    ensures
        r matches Some((a, t, o, k, p)) ==> pos <= p <= b@.len() && b@.subrange(pos as int, p as int)
            == record_head_bytes(a, t, o, k),
        forall|a: i8, t: i32, o: i32, k: Option<Vec<u8>>|
            key_fits(k) && #[trigger] bytes_at(b@, pos as int, record_head_bytes(a, t, o, k)) ==> (r matches Some(
                (a2, t2, o2, k2, p),
            ) && a2 == a && t2 == t && o2 == o && opt_view(k2) == opt_view(k) && p == pos
                + record_head_bytes(a, t, o, k).len()),
{
    proof {
        assert forall|a: i8, t: i32, o: i32, k: Option<Vec<u8>>|
            key_fits(k) && #[trigger] bytes_at(b@, pos as int, record_head_bytes(a, t, o, k)) implies {
                &&& bytes_at(b@, pos as int, i8_bytes(a))
                &&& bytes_at(b@, pos + 1, svarint(t as int))
                &&& bytes_at(b@, pos + 1 + svarint(t as int).len(), svarint(o as int))
                &&& bytes_at(b@, pos + 1 + svarint(t as int).len() + svarint(o as int).len(), key_field(k))
            } by {
            let (x, y, z, w) = (i8_bytes(a), svarint(t as int), svarint(o as int), key_field(k));
            lemma_bytes_at_concat(b@, pos as int, x + y + z, w);
            lemma_bytes_at_concat(b@, pos as int, x + y, z);
            lemma_bytes_at_concat(b@, pos as int, x, y);
        }
    }
    let (a, p1) = get_i8(b, pos)?;
    let (t, p2) = get_canonical_varint(b, p1)?;
    let (o, p3) = get_canonical_varint(b, p2)?;
    let (k, p4) = get_key_field(b, p3)?;
    proof {
        lemma_split(b@, pos as int, p1 as int, p2 as int);
        lemma_split(b@, pos as int, p2 as int, p3 as int);
        lemma_split(b@, pos as int, p3 as int, p4 as int);
    }
    Some((a, t, o, k, p4))
}

/// Reads a record's value at `pos`: its length, then the payload.
#[verifier::spinoff_prover]
fn get_value_field(b: &[u8], pos: usize) -> (r: Result<(i8, RecordType, usize), RecordError>)
    ensures
        r matches Ok((fv, t, p)) ==> pos <= p <= b@.len() && b@.subrange(pos as int, p as int)
            == value_field(fv, t),
        forall|fv: i8, t: RecordType|
            record_type_fits(t) && payload_bytes(fv, t).len() <= i32::MAX && #[trigger] bytes_at(
                b@,
                pos as int,
                value_field(fv, t),
            ) ==> (r matches Ok((fv2, t2, p)) && fv2 == fv && record_type_same(t2, t) && p == pos
                + value_field(fv, t).len()),
{
    proof {
        assert forall|fv: i8, t: RecordType|
            record_type_fits(t) && payload_bytes(fv, t).len() <= i32::MAX && #[trigger] bytes_at(
                b@,
                pos as int,
                value_field(fv, t),
            ) implies bytes_at(b@, pos as int, svarint(((payload_bytes(fv, t).len() as int) as i32) as int))
            && bytes_at(b@, pos + svarint(payload_bytes(fv, t).len() as int).len(), payload_bytes(fv, t)) by {
            let pl = payload_bytes(fv, t);
            assert((pl.len() as i32) as int == pl.len());
            lemma_bytes_at_concat(b@, pos as int, svarint(pl.len() as int), pl);
        }
    }
    let (len, q) = match get_canonical_varint(b, pos) {
        Some(x) => x,
        None => return Err(RecordError::Malformed),
    };
    if len < 0 || len as usize > b.len() - q {
        return Err(RecordError::Malformed);
    }
    let end = q + len as usize;
    let value = copy_range(b, q, end);
    let (fv, t) = match RecordType::new(value.as_slice()) {
        Ok(x) => x,
        Err(e) => return Err(e),
    };
    proof {
        lemma_split(b@, pos as int, q as int, end as int);
    }
    Ok((fv, t, end))
}

/// Reads a record body that fills `body` exactly.
#[verifier::rlimit(100)]
#[verifier::spinoff_prover]
fn parse_record_body(body: &[u8]) -> (r: Result<Record, RecordError>)
    ensures
        r matches Ok(rec) ==> body@ == record_body_bytes(rec),
        forall|rec: Record|
            record_fits(rec) && body@ == #[trigger] record_body_bytes(rec) ==> (r matches Ok(r2)
                && record_same(r2, rec)),
{
    proof {
        assert forall|rec: Record| record_fits(rec) && body@ == #[trigger] record_body_bytes(rec) implies {
            let h = record_head_bytes(rec.attributes, rec.timestamp_delta, rec.offset_delta, rec.key);
            let v = value_field(rec.frame_version, rec.record_type);
            &&& bytes_at(body@, 0, h)
            &&& bytes_at(body@, h.len() as int, v)
            &&& bytes_at(body@, h.len() + v.len() as int, seq![0u8])
            &&& body@.len() == h.len() + v.len() + 1
            &&& payload_bytes(rec.frame_version, rec.record_type).len() <= i32::MAX
        } by {
            let h = record_head_bytes(rec.attributes, rec.timestamp_delta, rec.offset_delta, rec.key);
            let v = value_field(rec.frame_version, rec.record_type);
            assert(uvarint(0) =~= seq![0u8]);
            assert(body@.subrange(0, body@.len() as int) =~= body@);
            lemma_bytes_at_concat(body@, 0, h + v, uvarint(0));
            lemma_bytes_at_concat(body@, 0, h, v);
        }
    }
    let (attributes, timestamp_delta, offset_delta, key, q1) = match get_record_head(body, 0) {
        Some(x) => x,
        None => return Err(RecordError::Malformed),
    };
    let (frame_version, record_type, q2) = match get_value_field(body, q1) {
        Ok(x) => x,
        Err(e) => return Err(e),
    };
    let (headers, q3) = match get_u8(body, q2) {
        Some(x) => x,
        None => return Err(RecordError::Malformed),
    };
    if headers != 0 || q3 != body.len() {
        return Err(RecordError::Malformed);
    }
    let rec = Record { attributes, timestamp_delta, offset_delta, key, frame_version, record_type };
    proof {
        let bd = body@;
        lemma_split(bd, 0, q1 as int, q2 as int);
        lemma_split(bd, 0, q2 as int, q3 as int);
        assert(bd.subrange(q2 as int, q3 as int) =~= uvarint(0));
        assert(bd.subrange(0, q3 as int) =~= bd);
    }
    Ok(rec)
}

impl Record {
    /// Reads a record at `pos`. Succeeds, field by field, wherever the
    /// bytes of a record stand there.
    #[verifier::spinoff_prover]
    pub fn new(b: &[u8], pos: usize) -> (r: Result<(Record, usize), RecordError>)
        ensures
            r matches Ok((rec, p)) ==> pos <= p <= b@.len() && b@.subrange(pos as int, p as int)
                == record_bytes(rec),
            forall|rec: Record|
                record_fits(rec) && #[trigger] bytes_at(b@, pos as int, record_bytes(rec)) ==> (r matches Ok(
                    (r2, p),
                ) && record_same(r2, rec) && p == pos + record_bytes(rec).len()),
    {
        proof {
            assert forall|rec: Record| record_fits(rec) && #[trigger] bytes_at(b@, pos as int, record_bytes(rec))
                implies bytes_at(b@, pos as int, svarint(((record_body_bytes(rec).len() as int) as i32) as int))
                && bytes_at(b@, pos + svarint(record_body_bytes(rec).len() as int).len(), record_body_bytes(rec)) by {
                let bd = record_body_bytes(rec);
                assert((bd.len() as i32) as int == bd.len());
                lemma_bytes_at_concat(b@, pos as int, svarint(bd.len() as int), bd);
            }
        }
        let (len, p1) = match get_canonical_varint(b, pos) {
            Some(x) => x,
            None => return Err(RecordError::Malformed),
        };
        if len < 0 || len as usize > b.len() - p1 {
            return Err(RecordError::Malformed);
        }
        let end = p1 + len as usize;
        let body = copy_range(b, p1, end);
        let rec = match parse_record_body(body.as_slice()) {
            Ok(x) => x,
            Err(e) => return Err(e),
        };
        proof {
            lemma_split(b@, pos as int, p1 as int, end as int);
        }
        Ok((rec, end))
    }
}

/// The fixed fields of a record batch after its length.
#[derive(Debug)]
pub struct RecordBatchHeader {
    pub leader_epoch: i32,
    pub magic: i8,
    pub crc: i32,
    pub attributes: i16,
    pub last_offset_delta: i32,
    pub base_timestamp: i64,
    pub max_timestamp: i64,
    pub producer_id: i64,
    pub producer_epoch: i16,
    pub base_sequence: i32,
}

pub open spec fn batch_header_bytes(h: RecordBatchHeader) -> Seq<u8> {
    i32_bytes(h.leader_epoch) + i8_bytes(h.magic) + i32_bytes(h.crc) + i16_bytes(h.attributes)
        + i32_bytes(h.last_offset_delta) + i64_bytes(h.base_timestamp) + i64_bytes(
        h.max_timestamp,
    ) + i64_bytes(h.producer_id) + i16_bytes(h.producer_epoch) + i32_bytes(h.base_sequence)
}

impl RecordBatchHeader {
    #[verifier::rlimit(100)]
    #[verifier::spinoff_prover]
    pub fn new(b: &[u8], pos: usize) -> (r: Option<(RecordBatchHeader, usize)>)
        ensures
            r matches Some((t, p)) ==> pos <= p <= b@.len() && b@.subrange(pos as int, p as int)
                == batch_header_bytes(t),
            forall|t: RecordBatchHeader|
                true && #[trigger] bytes_at(b@, pos as int, batch_header_bytes(t)) ==> (r matches Some((u, p))
                    && u == t && p == pos + batch_header_bytes(t).len()),
    {
        let (leader_epoch, p1) = match get_i32(b, pos) {
            Some(x) => x,
            None => {
                proof {
                    assert forall|t: RecordBatchHeader| true && #[trigger] bytes_at(b@, pos as int, batch_header_bytes(t)) implies false by {
                        lemma_batch_header_bytes_fields(b@, pos as int, t);
                    }
                }
                return None;
            },
        };
        let (magic, p2) = match get_i8(b, p1) {
            Some(x) => x,
            None => {
                proof {
                    assert forall|t: RecordBatchHeader| true && #[trigger] bytes_at(b@, pos as int, batch_header_bytes(t)) implies false by {
                        lemma_batch_header_bytes_fields(b@, pos as int, t);
                    }
                }
                return None;
            },
        };
        let (crc, p3) = match get_i32(b, p2) {
            Some(x) => x,
            None => {
                proof {
                    assert forall|t: RecordBatchHeader| true && #[trigger] bytes_at(b@, pos as int, batch_header_bytes(t)) implies false by {
                        lemma_batch_header_bytes_fields(b@, pos as int, t);
                    }
                }
                return None;
            },
        };
        let (attributes, p4) = match get_i16(b, p3) {
            Some(x) => x,
            None => {
                proof {
                    assert forall|t: RecordBatchHeader| true && #[trigger] bytes_at(b@, pos as int, batch_header_bytes(t)) implies false by {
                        lemma_batch_header_bytes_fields(b@, pos as int, t);
                    }
                }
                return None;
            },
        };
        let (last_offset_delta, p5) = match get_i32(b, p4) {
            Some(x) => x,
            None => {
                proof {
                    assert forall|t: RecordBatchHeader| true && #[trigger] bytes_at(b@, pos as int, batch_header_bytes(t)) implies false by {
                        lemma_batch_header_bytes_fields(b@, pos as int, t);
                    }
                }
                return None;
            },
        };
        let (base_timestamp, p6) = match get_i64(b, p5) {
            Some(x) => x,
            None => {
                proof {
                    assert forall|t: RecordBatchHeader| true && #[trigger] bytes_at(b@, pos as int, batch_header_bytes(t)) implies false by {
                        lemma_batch_header_bytes_fields(b@, pos as int, t);
                    }
                }
                return None;
            },
        };
        let (max_timestamp, p7) = match get_i64(b, p6) {
            Some(x) => x,
            None => {
                proof {
                    assert forall|t: RecordBatchHeader| true && #[trigger] bytes_at(b@, pos as int, batch_header_bytes(t)) implies false by {
                        lemma_batch_header_bytes_fields(b@, pos as int, t);
                    }
                }
                return None;
            },
        };
        let (producer_id, p8) = match get_i64(b, p7) {
            Some(x) => x,
            None => {
                proof {
                    assert forall|t: RecordBatchHeader| true && #[trigger] bytes_at(b@, pos as int, batch_header_bytes(t)) implies false by {
                        lemma_batch_header_bytes_fields(b@, pos as int, t);
                    }
                }
                return None;
            },
        };
        let (producer_epoch, p9) = match get_i16(b, p8) {
            Some(x) => x,
            None => {
                proof {
                    assert forall|t: RecordBatchHeader| true && #[trigger] bytes_at(b@, pos as int, batch_header_bytes(t)) implies false by {
                        lemma_batch_header_bytes_fields(b@, pos as int, t);
                    }
                }
                return None;
            },
        };
        let (base_sequence, p10) = match get_i32(b, p9) {
            Some(x) => x,
            None => {
                proof {
                    assert forall|t: RecordBatchHeader| true && #[trigger] bytes_at(b@, pos as int, batch_header_bytes(t)) implies false by {
                        lemma_batch_header_bytes_fields(b@, pos as int, t);
                    }
                }
                return None;
            },
        };
        let u = RecordBatchHeader {
            leader_epoch,
            magic,
            crc,
            attributes,
            last_offset_delta,
            base_timestamp,
            max_timestamp,
            producer_id,
            producer_epoch,
            base_sequence,
        };
        proof {
            lemma_split(b@, pos as int, p1 as int, p2 as int);
            lemma_split(b@, pos as int, p2 as int, p3 as int);
            lemma_split(b@, pos as int, p3 as int, p4 as int);
            lemma_split(b@, pos as int, p4 as int, p5 as int);
            lemma_split(b@, pos as int, p5 as int, p6 as int);
            lemma_split(b@, pos as int, p6 as int, p7 as int);
            lemma_split(b@, pos as int, p7 as int, p8 as int);
            lemma_split(b@, pos as int, p8 as int, p9 as int);
            lemma_split(b@, pos as int, p9 as int, p10 as int);
            assert forall|t: RecordBatchHeader| true && #[trigger] bytes_at(b@, pos as int, batch_header_bytes(t)) implies u == t && p10 == pos + batch_header_bytes(t).len() by {
                lemma_batch_header_bytes_fields(b@, pos as int, t);
            }
        }
        Some((u, p10))
    }
}

/// A record batch of the log, with the records read from it. Reading stops
/// at the first record that cannot be read; the rest of the batch is skipped.
#[derive(Debug)]
pub struct RecordBatch {
    /// Where the batch starts in the log.
    pub offset: usize,
    pub base_offset: i64,
    pub batch_length: i32,
    pub header: RecordBatchHeader,
    pub records_count: i32,
    pub records: Vec<Record>,
}

/// `bt` was read from `b`: its framing stands at its offset, and its body
/// begins with its header, its record count and its records.
pub open spec fn batch_at(b: Seq<u8>, bt: RecordBatch) -> bool {
    &&& bt.batch_length >= 0
    &&& bt.offset + 12 + bt.batch_length <= b.len()
    &&& bytes_at(b, bt.offset as int, i64_bytes(bt.base_offset) + i32_bytes(bt.batch_length))
    &&& bytes_at(
        b,
        bt.offset + 12,
        batch_header_bytes(bt.header) + i32_bytes(bt.records_count) + concat_map(
            bt.records@,
            record_item(),
        ),
    )
    &&& (batch_header_bytes(bt.header) + i32_bytes(bt.records_count) + concat_map(
        bt.records@,
        record_item(),
    )).len() <= bt.batch_length
    &&& bt.records@.len() <= bt.records_count
    &&& bt.records@.len() == bt.records_count || forall|rec: Record|
        record_fits(rec) ==> !#[trigger] bytes_at(
            b.subrange(bt.offset + 12, bt.offset + 12 + bt.batch_length),
            (batch_header_bytes(bt.header) + i32_bytes(bt.records_count) + concat_map(
                bt.records@,
                record_item(),
            )).len() as int,
            record_bytes(rec),
        )
}

/// A batch starts at `pos`: its base offset and a length that fits the
/// bytes, then a body that begins with a header and a record count that
/// is not negative.
pub open spec fn batch_start_at(b: Seq<u8>, pos: int, base: i64, len: i32, h: RecordBatchHeader, count: i32) -> bool {
    &&& bytes_at(b, pos, i64_bytes(base) + i32_bytes(len))
    &&& 0 <= len && pos + 12 + len <= b.len()
    &&& bytes_at(b, pos + 12, batch_header_bytes(h) + i32_bytes(count))
    &&& (batch_header_bytes(h) + i32_bytes(count)).len() <= len
    &&& count >= 0
}

/// The position right after batch `bt`.
pub open spec fn batch_end(bt: RecordBatch) -> int {
    bt.offset + 12 + bt.batch_length
}

impl RecordBatch {
    /// Reads the batch at `pos`; `None` where its framing, header or record
    /// count cannot be read.
    #[verifier::rlimit(100)]
   #[verifier::spinoff_prover]
    #[verifier::spinoff_prover]
    pub fn new(b: &[u8], pos: usize) -> (r: Option<(RecordBatch, usize)>)
        ensures
            r matches Some((bt, p)) ==> bt.offset == pos && batch_at(b@, bt) && p == batch_end(bt),
            forall|base: i64, len: i32, h: RecordBatchHeader, count: i32|
                #[trigger] batch_start_at(b@, pos as int, base, len, h, count) ==> (r matches Some((bt, p))
                    && bt.base_offset == base && bt.batch_length == len && bt.header == h
                    && bt.records_count == count),
    {
        proof {
            assert forall|base: i64, len: i32, h: RecordBatchHeader, count: i32|
                #[trigger] batch_start_at(b@, pos as int, base, len, h, count) implies
                bytes_at(b@, pos as int, i64_bytes(base)) && bytes_at(b@, pos + 8, i32_bytes(len))
                && bytes_at(b@.subrange(pos + 12, pos + 12 + len), 0, batch_header_bytes(h))
                && bytes_at(b@.subrange(pos + 12, pos + 12 + len), 45, i32_bytes(count)) by {
                lemma_bytes_at_concat(b@, pos as int, i64_bytes(base), i32_bytes(len));
                let body = b@.subrange(pos + 12, pos + 12 + len);
                let hc = batch_header_bytes(h) + i32_bytes(count);
                assert(body.subrange(0, hc.len() as int) =~= b@.subrange(pos + 12, pos + 12 + hc.len()));
                lemma_bytes_at_concat(body, 0, batch_header_bytes(h), i32_bytes(count));
            }
        }
        let (base_offset, p1) = get_i64(b, pos)?;
        let (batch_length, p2) = get_i32(b, p1)?;
        if batch_length < 0 || batch_length as usize > b.len() - p2 {
            return None;
        }
        let end = p2 + batch_length as usize;
        let body = copy_range(b, p2, end);
        let body = body.as_slice();
        let (header, q1) = RecordBatchHeader::new(body, 0)?;
        let (records_count, q2) = get_i32(body, q1)?;
        if records_count < 0 {
            return None;
        }
        let ghost f = record_item();
        let mut records: Vec<Record> = Vec::new();
        let mut q = q2;
        let mut i: i32 = 0;
        while i < records_count
            invariant
                q2 <= q <= body@.len(),
                body@.subrange(q2 as int, q as int) == concat_map(records@, f),
                f == record_item(),
                records@.len() == i,
                0 <= i <= records_count,
            ensures
                q2 <= q <= body@.len(),
                body@.subrange(q2 as int, q as int) == concat_map(records@, f),
                records@.len() == i,
                0 <= i <= records_count,
                i == records_count || forall|rec: Record|
                    record_fits(rec) ==> !#[trigger] bytes_at(body@, q as int, record_bytes(rec)),
            decreases records_count - i,
        {
            match Record::new(body, q) {
                Ok((rec, q3)) => {
                    proof {
                        lemma_concat_map_push(records@, rec, f);
                        lemma_split(body@, q2 as int, q as int, q3 as int);
                    }
                    records.push(rec);
                    q = q3;
                    i += 1;
                },
                Err(_) => break,
            }
        }
        proof {
            lemma_split(b@, pos as int, p1 as int, p2 as int);
            lemma_split(body@, 0, q1 as int, q2 as int);
            lemma_split(body@, 0, q2 as int, q as int);
            assert(b@.subrange(p2 as int, p2 + q) =~= body@.subrange(0, q as int));
        }
        let bt = RecordBatch { offset: pos, base_offset, batch_length, header, records_count, records };
        Some((bt, end))
    }
}

/// `bs` were read one after another from the start of `b`.
pub open spec fn log_batches(b: Seq<u8>, bs: Seq<RecordBatch>) -> bool {
    &&& forall|i: int| 0 <= i < bs.len() ==> #[trigger] batch_at(b, bs[i])
    &&& bs.len() > 0 ==> bs[0].offset == 0
    &&& forall|i: int| 0 <= i < bs.len() - 1 ==> bs[i + 1].offset == #[trigger] batch_end(bs[i])
}

/// Where the last of `bs` ends; 0 for none.
pub open spec fn batches_end(bs: Seq<RecordBatch>) -> int {
    if bs.len() == 0 {
        0
    } else {
        batch_end(bs.last())
    }
}

/// Reads the batches of a log, from its start until the end of the bytes or
/// the first batch whose framing cannot be read.
pub fn read_batches(content: &[u8]) -> (r: Vec<RecordBatch>)
    ensures
        log_batches(content@, r@),
        batches_end(r@) == content@.len() || forall|base: i64, len: i32, h: RecordBatchHeader, count: i32|
            !#[trigger] batch_start_at(content@, batches_end(r@), base, len, h, count),
{
    let mut batches: Vec<RecordBatch> = Vec::new();
    let mut pos: usize = 0;
    while pos < content.len()
        invariant
            log_batches(content@, batches@),
            batches@.len() > 0 ==> pos == batch_end(batches@.last()),
            batches@.len() == 0 ==> pos == 0,
            pos == batches_end(batches@),
            pos <= content@.len(),
        ensures
            pos == content@.len() || forall|base: i64, len: i32, h: RecordBatchHeader, count: i32|
                !#[trigger] batch_start_at(content@, pos as int, base, len, h, count),
        decreases content@.len() - pos,
    {
        match RecordBatch::new(content, pos) {
            Some((bt, p)) => {
                let ghost old_bs = batches@;
                batches.push(bt);
                proof {
                    assert forall|i: int| 0 <= i < batches@.len() implies #[trigger] batch_at(content@, batches@[i]) by {
                        if i < old_bs.len() {
                            assert(batches@[i] == old_bs[i]);
                        }
                    }
                    assert forall|i: int| 0 <= i < batches@.len() - 1 implies batches@[i + 1].offset == #[trigger] batch_end(batches@[i]) by {
                        assert(batches@[i] == old_bs[i]);
                        if i + 1 < old_bs.len() {
                            assert(batches@[i + 1] == old_bs[i + 1]);
                        }
                    }
                }
                pos = p;
            },
            None => break,
        }
    }
    batches
}

// ---------------------------------------------------------------------------
// The topic index
// ---------------------------------------------------------------------------

/// A topic as the index holds it: name, uuid, partitions.
pub type TopicModel = (Seq<u8>, u128, Seq<PartitionRecord>);

/// Index state while reading one batch: the topics so far, and the place
/// of the topic that the batch's last topic record named.
pub type IndexState = (Seq<TopicModel>, Option<int>);

/// One record's effect: a topic record adds a topic and makes it current; a
/// partition record of the current topic's uuid joins that topic; anything
/// else changes nothing.
pub open spec fn apply_record(st: IndexState, r: RecordType) -> IndexState {
    match r {
        RecordType::Topic(t) => (st.0.push((t.topic_name@, t.uuid, Seq::empty())), Some(st.0.len() as int)),
        RecordType::Partition(p) => match st.1 {
            Some(i) => if 0 <= i < st.0.len() && st.0[i].1 == p.uuid {
                (st.0.update(i, (st.0[i].0, st.0[i].1, st.0[i].2.push(p))), st.1)
            } else {
                st
            },
            None => st,
        },
        RecordType::Feature(_) => st,
    }
}

pub open spec fn apply_records(st: IndexState, rs: Seq<Record>) -> IndexState
    decreases rs.len(),
{
    if rs.len() == 0 {
        st
    } else {
        apply_record(apply_records(st, rs.drop_last()), rs.last().record_type)
    }
}

/// The topics that a run of batches describes; each batch starts with no
/// current topic.
pub open spec fn index_batches(bs: Seq<RecordBatch>) -> Seq<TopicModel>
    decreases bs.len(),
{
    if bs.len() == 0 {
        Seq::empty()
    } else {
        apply_records((index_batches(bs.drop_last()), None), bs.last().records@).0
    }
}

/// A topic of the index.
#[derive(Debug)]
pub struct TopicEntry {
    pub name: Vec<u8>,
    pub uuid: u128,
    pub partitions: Vec<PartitionRecord>,
}

pub open spec fn entry_model(e: TopicEntry) -> TopicModel {
    (e.name@, e.uuid, e.partitions@)
}

/// Topics of the cluster-metadata log, by name, uuid and partition. It is
/// built once and only read afterwards.
#[derive(Debug)]
pub struct MetadataStore {
    pub topics: Vec<TopicEntry>,
}

/// The first topic named `name`.
pub open spec fn first_named(ts: Seq<TopicModel>, name: Seq<u8>, i: int) -> bool {
    0 <= i < ts.len() && ts[i].0 == name && forall|j: int| 0 <= j < i ==> #[trigger] ts[j].0 != name
}

pub open spec fn no_topic_named(ts: Seq<TopicModel>, name: Seq<u8>) -> bool {
    forall|j: int| 0 <= j < ts.len() ==> #[trigger] ts[j].0 != name
}

pub open spec fn has_uuid(ts: Seq<TopicModel>, uuid: u128) -> bool {
    exists|j: int| 0 <= j < ts.len() && #[trigger] ts[j].1 == uuid
}

pub open spec fn has_partition(ts: Seq<TopicModel>, uuid: u128, pid: i32) -> bool {
    exists|j: int, k: int|
        0 <= j < ts.len() && #[trigger] ts[j].1 == uuid && 0 <= k < ts[j].2.len() && #[trigger] ts[j].2[k].partition_id == pid
}

impl MetadataStore {
    pub open spec fn view(&self) -> Seq<TopicModel> {
        self.topics@.map_values(|e: TopicEntry| entry_model(e))
    }

    /// A store with no topics.
    pub fn empty() -> (r: MetadataStore)
        ensures
            r.view() == Seq::<TopicModel>::empty(),
    {
        let r = MetadataStore { topics: Vec::new() };
        assert(r.view() =~= Seq::<TopicModel>::empty());
        r
    }

    fn apply(&mut self, rec: RecordType, current: Option<usize>) -> (r: Option<usize>)
        requires
            current matches Some(i) ==> i < old(self).view().len(),
        ensures
            (final(self).view(), match r {
                Some(i) => Some(i as int),
                None => None::<int>,
            }) == apply_record(
                (old(self).view(), match current {
                    Some(i) => Some(i as int),
                    None => None::<int>,
                }),
                rec,
            ),
            r matches Some(i) ==> i < final(self).view().len(),
    {
        match rec {
            RecordType::Topic(t) => {
                let n = self.topics.len();
                let ghost uuid = t.uuid;
                let ghost name = t.topic_name@;
                self.topics.push(TopicEntry { name: t.topic_name, uuid: t.uuid, partitions: Vec::new() });
                assert(self.view() =~= old(self).view().push((name, uuid, Seq::empty())));
                Some(n)
            },
            RecordType::Partition(p) => {
                match current {
                    Some(i) => {
                        if self.topics[i].uuid == p.uuid {
                            let ghost pv = p;
                            let mut e = self.topics.remove(i);
                            e.partitions.push(p);
                            self.topics.insert(i, e);
                            assert(self.view() =~= old(self).view().update(
                                i as int,
                                (old(self).view()[i as int].0, old(self).view()[i as int].1, old(self).view()[i as int].2.push(pv)),
                            ));
                        }
                        current
                    },
                    None => None,
                }
            },
            RecordType::Feature(_) => current,
        }
    }

    /// Builds the index from the batches of a log.
    pub fn from_batches(batches: Vec<RecordBatch>) -> (r: MetadataStore)
        ensures
            r.view() == index_batches(batches@),
    {
        let ghost all = batches@;
        let total = batches.len();
        let mut rest = batches;
        let mut store = MetadataStore::empty();
        let mut n: usize = 0;
        while rest.len() > 0
            invariant
                n + rest@.len() == all.len(),
                all.len() == total,
                rest@ == all.subrange(n as int, all.len() as int),
                store.view() == index_batches(all.subrange(0, n as int)),
            decreases rest@.len(),
        {
            let batch = rest.remove(0);
            assert(batch == all[n as int]);
            let ghost before = store.view();
            let ghost recs = batch.records@;
            let count = batch.records.len();
            let mut records = batch.records;
            let mut current: Option<usize> = None;
            let mut k: usize = 0;
            while records.len() > 0
                invariant
                    k + records@.len() == recs.len(),
                    recs.len() == count,
                    records@ == recs.subrange(k as int, recs.len() as int),
                    current matches Some(i) ==> i < store.view().len(),
                    (store.view(), match current {
                        Some(i) => Some(i as int),
                        None => None::<int>,
                    }) == apply_records((before, None), recs.subrange(0, k as int)),
                decreases records@.len(),
            {
                let rec = records.remove(0);
                assert(rec == recs[k as int]);
                assert(recs.subrange(0, k + 1).drop_last() =~= recs.subrange(0, k as int));
                current = store.apply(rec.record_type, current);
                k += 1;
                assert(records@ =~= recs.subrange(k as int, recs.len() as int));
            }
            assert(recs.subrange(0, k as int) =~= recs);
            n += 1;
            assert(all.subrange(0, n as int).drop_last() =~= all.subrange(0, n - 1));
            assert(rest@ =~= all.subrange(n as int, all.len() as int));
        }
        assert(all.subrange(0, n as int) =~= all);
        store
    }

    /// The uuid of the first topic named `name`.
    pub fn get_topic_uuid(&self, name: &[u8]) -> (r: Option<u128>)
        ensures
            r matches Some(u) ==> exists|i: int| first_named(self.view(), name@, i) && self.view()[i].1 == u,
            r is None ==> no_topic_named(self.view(), name@),
    {
        match self.find_name(name) {
            Some(i) => Some(self.topics[i].uuid),
            None => None,
        }
    }

    /// The place of the first topic named `name`.
    pub fn find_name(&self, name: &[u8]) -> (r: Option<usize>)
        ensures
            r matches Some(i) ==> first_named(self.view(), name@, i as int),
            r is None ==> no_topic_named(self.view(), name@),
    {
        let mut i: usize = 0;
        while i < self.topics.len()
            invariant
                i <= self.topics@.len(),
                forall|j: int| 0 <= j < i ==> #[trigger] self.view()[j].0 != name@,
            decreases self.topics@.len() - i,
        {
            if bytes_eq(self.topics[i].name.as_slice(), name) {
                return Some(i);
            }
            i += 1;
        }
        None
    }

    /// The partitions of the first topic named `name`.
    pub fn get_partitions_by_name(&self, name: &[u8]) -> (r: Option<&Vec<PartitionRecord>>)
        ensures
            r matches Some(ps) ==> exists|i: int| first_named(self.view(), name@, i) && self.view()[i].2 == ps@,
            r is None ==> no_topic_named(self.view(), name@),
    {
        match self.find_name(name) {
            Some(i) => Some(&self.topics[i].partitions),
            None => None,
        }
    }

    /// The place of the first topic with this uuid.
    pub fn find_uuid(&self, uuid: u128) -> (r: Option<usize>)
        ensures
            r matches Some(i) ==> i < self.view().len() && self.view()[i as int].1 == uuid
                && forall|j: int| 0 <= j < i ==> #[trigger] self.view()[j].1 != uuid,
            r is None <==> !has_uuid(self.view(), uuid),
    {
        let mut i: usize = 0;
        while i < self.topics.len()
            invariant
                i <= self.topics@.len(),
                forall|j: int| 0 <= j < i ==> #[trigger] self.view()[j].1 != uuid,
            decreases self.topics@.len() - i,
        {
            if self.topics[i].uuid == uuid {
                assert(self.view()[i as int].1 == uuid);
                return Some(i);
            }
            i += 1;
        }
        None
    }

    /// Whether some topic has this uuid.
    pub fn has_topic(&self, uuid: u128) -> (r: bool)
        ensures
            r == has_uuid(self.view(), uuid),
    {
        self.find_uuid(uuid).is_some()
    }

    /// Whether some topic with this uuid has a partition with this id.
    pub fn valid_partition(&self, uuid: u128, partition_id: i32) -> (r: bool)
        ensures
            r == has_partition(self.view(), uuid, partition_id),
    {
        let mut i: usize = 0;
        while i < self.topics.len()
            invariant
                i <= self.topics@.len(),
                forall|j: int, k: int|
                    0 <= j < i && #[trigger] self.view()[j].1 == uuid && 0 <= k < self.view()[j].2.len()
                        ==> #[trigger] self.view()[j].2[k].partition_id != partition_id,
            decreases self.topics@.len() - i,
        {
            if self.topics[i].uuid == uuid {
                let ps = &self.topics[i].partitions;
                assert(ps@ == self.view()[i as int].2);
                let mut k: usize = 0;
                while k < ps.len()
                    invariant
                        k <= ps@.len(),
                        i < self.topics@.len(),
                        self.topics@[i as int].uuid == uuid,
                        ps@ == self.view()[i as int].2,
                        forall|j: int, m: int|
                            0 <= j < i && #[trigger] self.view()[j].1 == uuid && 0 <= m < self.view()[j].2.len()
                                ==> #[trigger] self.view()[j].2[m].partition_id != partition_id,
                        forall|m: int| 0 <= m < k ==> #[trigger] ps@[m].partition_id != partition_id,
                    decreases ps@.len() - k,
                {
                    if ps[k].partition_id == partition_id {
                        assert(self.view()[i as int].1 == uuid);
                        assert(self.view()[i as int].2[k as int].partition_id == partition_id);
                        return true;
                    }
                    k += 1;
                }
            }
            i += 1;
        }
        false
    }

    /// The name of the first topic with this uuid.
    pub fn topic_name(&self, uuid: u128) -> (r: Option<&Vec<u8>>)
        ensures
            r matches Some(n) ==> exists|i: int| 0 <= i < self.view().len() && self.view()[i].1 == uuid
                && self.view()[i].0 == n@ && forall|j: int| 0 <= j < i ==> #[trigger] self.view()[j].1 != uuid,
            r is None <==> !has_uuid(self.view(), uuid),
    {
        match self.find_uuid(uuid) {
            Some(i) => Some(&self.topics[i].name),
            None => None,
        }
    }
}

/// Builds the topic index from the bytes of a cluster-metadata log.
pub fn parse_metadata(content: &[u8]) -> (r: MetadataStore)
    ensures
        exists|bs: Seq<RecordBatch>|
            log_batches(content@, bs) && (batches_end(bs) == content@.len() || forall|
                base: i64,
                len: i32,
                h: RecordBatchHeader,
                count: i32,
            | !#[trigger] batch_start_at(content@, batches_end(bs), base, len, h, count)) && r.view()
                == index_batches(bs),
{
    let batches = read_batches(content);
    let ghost bs = batches@;
    let r = MetadataStore::from_batches(batches);
    assert(log_batches(content@, bs) && (batches_end(bs) == content@.len() || forall|
        base: i64,
        len: i32,
        h: RecordBatchHeader,
        count: i32,
    | !#[trigger] batch_start_at(content@, batches_end(bs), base, len, h, count)) && r.view()
        == index_batches(bs));
    r
}

} // verus!
