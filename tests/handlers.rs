use kafka_core::api::{supported_apis, ApiKey, ApiType, ErrorCode, TopicOp, authorized_operations};
use kafka_core::api_versions::ApiVersionResponse;
use kafka_core::codec::varint_encode;
use kafka_core::describe_topics::{sort_names, DescribeTopicsRequest};
use kafka_core::dispatch::{Handled, HandlerError, RequestParser};
use kafka_core::fetch::FetchRequest;
use kafka_core::frame::{Request, RequestHeader};
use kafka_core::log_dir::partition_dir_name;
use kafka_core::metadata::{parse_metadata, read_batches, MetadataStore, Record, RecordError};
use kafka_core::produce::{LogWrite, ProduceRequest};

const UUID: u128 = 0x00000000_0000_4000_8000_000000000091;

fn request(api_key: i16, api_version: i16, cid: i32, payload: Vec<u8>) -> Request {
    let header = RequestHeader { api_key, api_version, correlation_id: cid, client_id: Some(b"kafka-tester".to_vec()) };
    let size = (header.to_bytes().len() + payload.len()) as i32;
    Request { message_size: size, header, payload }
}

fn handle(req: Request, store: &MetadataStore) -> Result<Handled, HandlerError> {
    RequestParser::new(req).parse(store)
}

fn body_of(r: Result<Handled, HandlerError>) -> Vec<u8> {
    match r {
        Ok(Handled::Respond(b)) => b,
        _ => panic!("expected a ready response"),
    }
}

// ----- metadata log builders -----

fn compact(b: &[u8]) -> Vec<u8> {
    let mut v = vec![(b.len() + 1) as u8];
    v.extend_from_slice(b);
    v
}

fn record(value: &[u8]) -> Vec<u8> {
    let mut body = vec![0u8];
    body.extend(varint_encode(0));
    body.extend(varint_encode(0));
    body.extend(varint_encode(-1));
    body.extend(varint_encode(value.len() as i32));
    body.extend_from_slice(value);
    body.push(0);
    let mut r = varint_encode(body.len() as i32);
    r.extend(body);
    r
}

fn topic_value(name: &[u8], uuid: u128) -> Vec<u8> {
    let mut v = vec![1, 2, 0];
    v.extend(compact(name));
    v.extend(uuid.to_be_bytes());
    v.push(0);
    v
}

fn feature_value(name: &[u8], level: i16) -> Vec<u8> {
    let mut v = vec![1, 12, 0];
    v.extend(compact(name));
    v.extend(level.to_be_bytes());
    v.push(0);
    v
}

fn i32_array(xs: &[i32]) -> Vec<u8> {
    let mut v = vec![(xs.len() + 1) as u8];
    for x in xs {
        v.extend(x.to_be_bytes());
    }
    v
}

fn partition_value(pid: i32, uuid: u128, leader: i32, leader_epoch: i32) -> Vec<u8> {
    let mut v = vec![1, 3, 1];
    v.extend(pid.to_be_bytes());
    v.extend(uuid.to_be_bytes());
    v.extend(i32_array(&[1]));
    v.extend(i32_array(&[1]));
    v.extend(i32_array(&[]));
    v.extend(i32_array(&[]));
    v.extend(leader.to_be_bytes());
    v.extend(leader_epoch.to_be_bytes());
    v.extend(0i32.to_be_bytes());
    v.push(2);
    v.extend(7u128.to_be_bytes());
    v.push(0);
    v
}

fn batch(records: &[Vec<u8>]) -> Vec<u8> {
    let mut body = vec![0u8; 45];
    body.extend((records.len() as i32).to_be_bytes());
    for r in records {
        body.extend_from_slice(r);
    }
    let mut b = 0i64.to_be_bytes().to_vec();
    b.extend((body.len() as i32).to_be_bytes());
    b.extend(body);
    b
}

fn store_with_topic() -> MetadataStore {
    let mut log = batch(&[record(&feature_value(b"metadata.version", 20))]);
    log.extend(batch(&[
        record(&topic_value(b"bar", UUID)),
        record(&partition_value(0, UUID, 1, 0)),
        record(&partition_value(1, UUID, 2, 5)),
    ]));
    parse_metadata(&log)
}

// ----- dispatcher -----

#[test]
fn unsupported_versions_get_error_35() {
    for (key, version) in [(18i16, 5i16), (18, -1), (75, 1), (1, 17), (0, 12), (0, 8), (99, 0), (-1, 0)] {
        let b = body_of(RequestParser::new(request(key, version, 1234, vec![])).parse(&MetadataStore::empty()));
        assert_eq!(&b[..6], &[0, 0, 0x04, 0xd2, 0x00, 0x23], "key {key} version {version}");
    }
    let b = body_of(RequestParser::new(request(75, 3, 7, vec![])).parse(&MetadataStore::empty()));
    assert_eq!(b, vec![0, 0, 0, 7, 0, 35]);
}

#[test]
fn api_versions_advertises_four_keys() {
    let b = body_of(RequestParser::new(request(18, 4, 42, vec![])).parse(&MetadataStore::empty()));
    let mut want = vec![0, 0, 0, 42, 0, 0, 5];
    for (k, lo, hi) in [(18i16, 0i16, 4i16), (75, 0, 0), (1, 0, 16), (0, 9, 11)] {
        want.extend(k.to_be_bytes());
        want.extend(lo.to_be_bytes());
        want.extend(hi.to_be_bytes());
        want.push(0);
    }
    want.extend([0, 0, 0, 0, 0]);
    assert_eq!(b, want);
    let r = ApiVersionResponse::new(&request(18, 9, 1, vec![]).header);
    assert_eq!(r.error, ErrorCode::UnsupportedVersion);
    assert_eq!(supported_apis(), vec![ApiType::ApiVersions, ApiType::DescribeTopicPartitions, ApiType::Fetch, ApiType::Produce]);
}

#[test]
fn api_keys_and_codes() {
    assert_eq!(ApiKey::from(75), ApiKey::DescribeTopicPartitions);
    assert_eq!(ApiKey::from(2), ApiKey::Unsupported);
    assert_eq!(ApiKey::Unsupported.supported_versions(), (-1, -1));
    assert!(ApiKey::Fetch.is_supported(16));
    assert!(!ApiKey::Fetch.is_supported(17));
    assert!(!ApiKey::Unsupported.is_supported(0));
    assert_eq!(ApiKey::Produce.into(), 0);
    assert_eq!(ApiKey::Unsupported.into(), -1);
    assert_eq!(ErrorCode::UnknownTopicId.to_bytes(), vec![0, 100]);
    assert_eq!(ErrorCode::Unknown.to_bytes(), vec![0xff, 0xff]);
    assert_eq!(ErrorCode::from(35), ErrorCode::UnsupportedVersion);
    assert_eq!(ErrorCode::from(7), ErrorCode::Unknown);
    assert_eq!(authorized_operations(&TopicOp::default_ops()), 3576);
    assert_eq!(authorized_operations(&vec![]), 0);
}

#[test]
fn sequential_requests_echo_correlation_ids() {
    let store = MetadataStore::empty();
    for cid in [1, 2, 3, -5, i32::MAX] {
        let b = body_of(RequestParser::new(request(18, 3, cid, vec![])).parse(&store));
        assert_eq!(&b[..4], &cid.to_be_bytes());
    }
}

// ----- DescribeTopicPartitions -----

fn describe_payload(names: &[&[u8]]) -> Vec<u8> {
    let mut p = vec![(names.len() + 1) as u8];
    for n in names {
        p.extend(compact(n));
        p.push(0);
    }
    p.extend(1i32.to_be_bytes());
    p.push(0xff);
    p.push(0);
    p
}

#[test]
fn describe_unknown_topic() {
    let b = body_of(handle(request(75, 0, 99, describe_payload(&[b"foo"])), &MetadataStore::empty()));
    let mut want = vec![0, 0, 0, 99, 0, 0, 0, 0, 0, 2, 0, 3, 4, b'f', b'o', b'o'];
    want.extend([0u8; 16]);
    want.extend([0, 1, 0, 0, 0, 0, 0, 0xff, 0]);
    assert_eq!(b, want);
}

#[test]
fn describe_sorts_topic_names() {
    let b = body_of(handle(request(75, 0, 1, describe_payload(&[b"b", b"a"])), &MetadataStore::empty()));
    assert_eq!(b[9], 3);
    assert_eq!(&b[12..14], &[2, b'a']);
    let second = 12 + 2 + 16 + 1 + 1 + 4 + 1;
    assert_eq!(&b[second..second + 4], &[0, 3, 2, b'b']);
    let sorted = sort_names(vec![b"ab".to_vec(), b"b".to_vec(), b"a".to_vec(), b"".to_vec(), b"ab".to_vec()]);
    assert_eq!(sorted, vec![b"".to_vec(), b"a".to_vec(), b"ab".to_vec(), b"ab".to_vec(), b"b".to_vec()]);
}

#[test]
fn describe_known_topic() {
    let store = store_with_topic();
    let b = body_of(handle(request(75, 0, 5, describe_payload(&[b"bar"])), &store));
    let mut want = vec![0, 0, 0, 5, 0, 0, 0, 0, 0, 2, 0, 0, 4, b'b', b'a', b'r'];
    want.extend(UUID.to_be_bytes());
    want.push(0);
    want.push(3);
    for (pid, leader, epoch) in [(0i32, 1i32, 0i32), (1, 2, 5)] {
        want.extend([0, 0]);
        want.extend(pid.to_be_bytes());
        want.extend(leader.to_be_bytes());
        want.extend(epoch.to_be_bytes());
        want.extend([2, 0, 0, 0, 1, 2, 0, 0, 0, 1, 1, 1, 1, 0]);
    }
    want.extend([0, 0, 0, 0, 0, 0xff, 0]);
    assert_eq!(b, want);
}

#[test]
fn describe_malformed_payload() {
    let r = RequestParser::new(request(75, 0, 1, vec![2, 4, b'f'])).parse(&MetadataStore::empty());
    assert!(matches!(r, Err(HandlerError::MalformedPayload)));
    let req = request(75, 0, 1, describe_payload(&[b"x"]));
    let d = DescribeTopicsRequest::new(req).unwrap();
    assert_eq!(d.partition_limit, 1);
    assert_eq!(d.cursor, 0xff);
}

// ----- metadata log -----

#[test]
fn metadata_index() {
    let store = store_with_topic();
    assert_eq!(store.get_topic_uuid(b"bar"), Some(UUID));
    assert_eq!(store.get_topic_uuid(b"baz"), None);
    assert!(store.has_topic(UUID));
    assert!(!store.has_topic(1));
    assert!(store.valid_partition(UUID, 1));
    assert!(!store.valid_partition(UUID, 2));
    assert_eq!(store.get_partitions_by_name(b"bar").unwrap().len(), 2);
    assert_eq!(store.topic_name(UUID), Some(&b"bar".to_vec()));
    assert_eq!(parse_metadata(&[]).topics.len(), 0);
}

#[test]
fn metadata_unknown_record_type_skips_rest_of_batch() {
    let mut bad = topic_value(b"x", 5);
    bad[1] = 9;
    let mut log = batch(&[
        record(&topic_value(b"first", 1)),
        record(&bad),
        record(&topic_value(b"lost", 2)),
    ]);
    log.extend(batch(&[record(&topic_value(b"next", 3))]));
    let batches = read_batches(&log);
    assert_eq!(batches.len(), 2);
    assert_eq!(batches[0].records.len(), 1);
    let store = parse_metadata(&log);
    assert_eq!(store.get_topic_uuid(b"first"), Some(1));
    assert_eq!(store.get_topic_uuid(b"lost"), None);
    assert_eq!(store.get_topic_uuid(b"next"), Some(3));
    assert_eq!(Record::new(&record(&bad), 0).unwrap_err(), RecordError::UnknownType(9));
}

#[test]
fn metadata_partition_of_other_topic_is_not_attached() {
    let log = batch(&[record(&topic_value(b"t", 1)), record(&partition_value(0, 2, 1, 0))]);
    let store = parse_metadata(&log);
    assert_eq!(store.get_partitions_by_name(b"t").unwrap().len(), 0);
    let truncated = &log[..log.len() - 3];
    assert_eq!(read_batches(truncated).len(), 0);
}

// ----- Fetch -----

fn fetch_payload(session_id: i32, topics: &[(u128, &[i32])]) -> Vec<u8> {
    let mut p = Vec::new();
    p.extend(500i32.to_be_bytes());
    p.extend(1i32.to_be_bytes());
    p.extend(1000i32.to_be_bytes());
    p.push(0);
    p.extend(session_id.to_be_bytes());
    p.extend(0i32.to_be_bytes());
    p.push((topics.len() + 1) as u8);
    for (id, parts) in topics {
        p.extend(id.to_be_bytes());
        p.push((parts.len() + 1) as u8);
        for pid in parts.iter() {
            p.extend(pid.to_be_bytes());
            p.extend((-1i32).to_be_bytes());
            p.extend(0i64.to_be_bytes());
            p.extend((-1i32).to_be_bytes());
            p.extend((-1i64).to_be_bytes());
            p.extend(1048576i32.to_be_bytes());
        }
    }
    p.push(1);
    p.push(1);
    p.push(0);
    p
}

fn fetch_of(r: Result<Handled, HandlerError>) -> FetchRequest {
    match r {
        Ok(Handled::Fetch(f)) => f,
        _ => panic!("expected a fetch"),
    }
}

#[test]
fn fetch_without_topics() {
    let store = MetadataStore::empty();
    let f = fetch_of(handle(request(1, 16, 77, fetch_payload(0x0a0b0c0d, &[])), &store));
    let logs = f.log_reads(&store);
    assert!(logs.is_empty());
    let b = f.response(&store, &logs);
    assert_eq!(b, vec![0, 0, 0, 77, 0, 0, 0, 0, 0, 0, 0, 0x0a, 0x0b, 0x0c, 0x0d, 1, 0]);
}

#[test]
fn fetch_unknown_topic() {
    let store = MetadataStore::empty();
    let f = fetch_of(handle(request(1, 16, 3, fetch_payload(0, &[(UUID, &[0])])), &store));
    let b = f.response(&store, &f.log_reads(&store));
    let mut want = vec![0, 0, 0, 3, 0, 0, 0, 0, 0, 0, 0, 0, 0, 0, 0, 2];
    want.extend(UUID.to_be_bytes());
    want.extend([2, 0, 0, 0, 0, 0, 100]);
    want.extend([0u8; 24]);
    want.extend([1, 0, 0, 0, 0, 1, 0, 0, 0]);
    assert_eq!(b, want);
}

#[test]
fn fetch_known_topic_echoes_log() {
    let store = store_with_topic();
    let f = fetch_of(handle(request(1, 16, 3, fetch_payload(0, &[(UUID, &[1])])), &store));
    let mut logs = f.log_reads(&store);
    assert_eq!(logs.len(), 1);
    assert_eq!(logs[0].topic_name, b"bar".to_vec());
    assert_eq!(logs[0].partition_id, 1);
    logs[0].contents = vec![9, 8, 7];
    let b = f.response(&store, &logs);
    let mut want = vec![0, 0, 0, 3, 0, 0, 0, 0, 0, 0, 0, 0, 0, 0, 0, 2];
    want.extend(UUID.to_be_bytes());
    want.extend([2, 0, 0, 0, 1, 0, 0]);
    want.extend([0u8; 24]);
    want.extend([1, 0, 0, 0, 0, 4, 9, 8, 7, 0, 0, 0]);
    assert_eq!(b, want);
}

// ----- Produce -----

fn produce_payload(name: &[u8], index: i32, batches: &[u8]) -> Vec<u8> {
    let mut p = vec![0u8];
    p.extend((-1i16).to_be_bytes());
    p.extend(1500i32.to_be_bytes());
    p.push(2);
    p.extend(compact(name));
    p.push(2);
    p.extend(index.to_be_bytes());
    p.extend(compact(batches));
    p.push(0);
    p.push(0);
    p.push(0);
    p
}

fn produce_of(r: Result<Handled, HandlerError>) -> ProduceRequest {
    match r {
        Ok(Handled::Produce(p)) => p,
        _ => panic!("expected a produce"),
    }
}

fn produce_answer(cid: i32, name: &[u8], index: i32, error: i16, base: i64, start: i64) -> Vec<u8> {
    let mut want = cid.to_be_bytes().to_vec();
    want.push(0);
    want.push(2);
    want.extend(compact(name));
    want.push(2);
    want.extend(index.to_be_bytes());
    want.extend(error.to_be_bytes());
    want.extend(base.to_be_bytes());
    want.extend((-1i64).to_be_bytes());
    want.extend(start.to_be_bytes());
    want.extend([1, 0, 0, 0, 0, 0, 0, 0, 0]);
    want
}

#[test]
fn produce_to_known_partition() {
    let store = store_with_topic();
    let blob: Vec<u8> = (0..50).collect();
    let p = produce_of(handle(request(0, 11, 8, produce_payload(b"bar", 0, &blob)), &store));
    let writes = p.writes(&store);
    assert_eq!(writes.len(), 1);
    assert_eq!(writes[0].topic_name, b"bar".to_vec());
    assert_eq!(writes[0].partition_index, 0);
    assert_eq!(writes[0].contents, blob);
    assert_eq!(p.response(&store, &vec![]), produce_answer(8, b"bar", 0, 0, 0, 0));
}

#[test]
fn produce_to_unknown_topic() {
    let store = store_with_topic();
    let p = produce_of(handle(request(0, 11, 8, produce_payload(b"nope", 0, &[1, 2])), &store));
    assert!(p.writes(&store).is_empty());
    assert_eq!(p.response(&store, &vec![]), produce_answer(8, b"nope", 0, 3, -1, -1));
    let q = produce_of(handle(request(0, 11, 8, produce_payload(b"bar", 7, &[1, 2])), &store));
    assert!(q.writes(&store).is_empty());
}

#[test]
fn produce_failed_write() {
    let store = store_with_topic();
    let p = produce_of(handle(request(0, 11, 8, produce_payload(b"bar", 1, &[1])), &store));
    let failed = vec![LogWrite { topic_name: b"bar".to_vec(), partition_index: 1, contents: vec![] }];
    assert_eq!(p.response(&store, &failed), produce_answer(8, b"bar", 1, -1, -1, -1));
}

#[test]
fn partition_directory_names() {
    assert_eq!(partition_dir_name(b"bar", 0), b"bar-0".to_vec());
    assert_eq!(partition_dir_name(b"t", 1234), b"t-1234".to_vec());
    assert_eq!(partition_dir_name(b"t", -7), b"t--7".to_vec());
    assert_eq!(partition_dir_name(b"x", i32::MIN), b"x--2147483648".to_vec());
}

#[test]
fn fetch_helpers_exact_bytes() {
    let store = MetadataStore::empty();
    let f = fetch_of(handle(request(1, 16, 77, fetch_payload(5, &[])), &store));
    let mut b = vec![0xaa];
    f.no_topic_response(&mut b);
    assert_eq!(b, vec![0xaa, 0, 0, 0, 77, 0, 0, 0, 0, 0, 0, 0, 0, 0, 0, 5, 1, 0]);
    let mut u = Vec::new();
    FetchRequest::unknown_topics_response(&mut u);
    let mut want = vec![2, 0, 0, 0, 0, 0, 100];
    want.extend([0u8; 24]);
    want.extend([1, 0, 0, 0, 0, 1, 0]);
    assert_eq!(u, want);
}

#[test]
fn record_reads_back_field_by_field() {
    let value = topic_value(b"abc", 9);
    let mut bytes = record(&value);
    let n = bytes.len();
    bytes.extend([7, 7]);
    let (rec, p) = Record::new(&bytes, 0).unwrap();
    assert_eq!(p, n);
    assert_eq!(rec.attributes, 0);
    assert_eq!(rec.timestamp_delta, 0);
    assert_eq!(rec.offset_delta, 0);
    assert!(rec.key.is_none());
    assert_eq!(rec.frame_version, 1);
    match rec.record_type {
        kafka_core::metadata::RecordType::Topic(t) => {
            assert_eq!(t.topic_name, b"abc".to_vec());
            assert_eq!(t.uuid, 9);
        }
        _ => panic!("expected a topic record"),
    }
    assert_eq!(Record::new(&bytes[..n - 1], 0).unwrap_err(), RecordError::Malformed);
}

#[test]
fn unknown_record_type_code() {
    for code in [0u8, 1, 4, 11, 13, 0xff] {
        let mut v = topic_value(b"x", 1);
        v[1] = code;
        assert_eq!(
            kafka_core::metadata::RecordType::new(&v).unwrap_err(),
            RecordError::UnknownType(code as i8)
        );
    }
}

#[test]
fn batch_reading_stops_at_a_bad_record_but_keeps_earlier_ones() {
    let mut bad = topic_value(b"x", 5);
    bad[1] = 9;
    let log = batch(&[record(&topic_value(b"a", 1)), record(&topic_value(b"b", 2)), record(&bad)]);
    let batches = read_batches(&log);
    assert_eq!(batches.len(), 1);
    assert_eq!(batches[0].records_count, 3);
    assert_eq!(batches[0].records.len(), 2);
    let store = parse_metadata(&log);
    assert_eq!(store.get_topic_uuid(b"a"), Some(1));
    assert_eq!(store.get_topic_uuid(b"b"), Some(2));
}

#[test]
fn produce_writes_in_request_order() {
    let store = store_with_topic();
    let mut p = vec![0u8];
    p.extend((-1i16).to_be_bytes());
    p.extend(1500i32.to_be_bytes());
    p.push(2);
    p.extend(compact(b"bar"));
    p.push(4);
    for (idx, blob) in [(1i32, &[1u8][..]), (5, &[2u8][..]), (0, &[3u8, 4][..])] {
        p.extend(idx.to_be_bytes());
        p.extend(compact(blob));
        p.push(0);
    }
    p.push(0);
    p.push(0);
    let pr = produce_of(handle(request(0, 11, 1, p), &store));
    let writes = pr.writes(&store);
    let got: Vec<(i32, Vec<u8>)> = writes.iter().map(|w| (w.partition_index, w.contents.clone())).collect();
    assert_eq!(got, vec![(1, vec![1]), (0, vec![3, 4])]);
}
