use kafka_core::api::ErrorCode;
use kafka_core::frame::{
    frame_response, frame_status, FrameError, FrameStatus, GeneralResponse, Request, RequestHeader,
    DEFAULT_MAX_MESSAGE_SIZE,
};

fn header(id: Option<&[u8]>) -> RequestHeader {
    RequestHeader { api_key: 18, api_version: 4, correlation_id: 0x11223344, client_id: id.map(|s| s.to_vec()) }
}

#[test]
fn header_round_trip() {
    for id in [None, Some(&b""[..]), Some(&b"kafka-cli"[..])] {
        let h = header(id);
        let mut b = h.to_bytes();
        let n = b.len();
        b.extend_from_slice(&[9, 9]);
        let (g, p) = RequestHeader::parse(&b, 0).unwrap();
        assert_eq!(p, n);
        assert_eq!(g.api_key, h.api_key);
        assert_eq!(g.api_version, h.api_version);
        assert_eq!(g.correlation_id, h.correlation_id);
        assert_eq!(g.client_id, h.client_id);
    }
}

#[test]
fn header_null_and_empty_client_ids_differ() {
    let null = header(None).to_bytes();
    let empty = header(Some(b"")).to_bytes();
    assert_eq!(&null[8..10], &[0xff, 0xff]);
    assert_eq!(&empty[8..10], &[0x00, 0x00]);
    assert_eq!(RequestHeader::parse(&null, 0).unwrap().0.client_id, None);
    assert_eq!(RequestHeader::parse(&empty, 0).unwrap().0.client_id, Some(Vec::new()));
}

#[test]
fn header_refusals() {
    let mut b = header(Some(b"ab")).to_bytes();
    let last = b.len() - 1;
    b[last] = 1;
    assert!(RequestHeader::parse(&b, 0).is_none());
    // client id length past the end
    let mut c = header(None).to_bytes();
    c[8] = 0;
    c[9] = 50;
    assert!(RequestHeader::parse(&c, 0).is_none());
    // negative length other than -1
    let mut d = header(None).to_bytes();
    d[9] = 0xfe;
    assert!(RequestHeader::parse(&d, 0).is_none());
    assert!(RequestHeader::parse(&[0; 10], 0).is_none());
}

fn frame_of(body: &[u8]) -> Vec<u8> {
    let mut f = (body.len() as i32).to_be_bytes().to_vec();
    f.extend_from_slice(body);
    f
}

#[test]
fn request_parse() {
    let mut body = header(Some(b"x")).to_bytes();
    body.extend_from_slice(&[1, 2, 3]);
    let f = frame_of(&body);
    let req = Request::parse(&f).unwrap();
    assert_eq!(req.message_size as usize, body.len());
    assert_eq!(i32::from_be_bytes([f[0], f[1], f[2], f[3]]), req.message_size);
    assert_eq!(req.header.correlation_id, 0x11223344);
    assert_eq!(req.payload, vec![1, 2, 3]);
}

#[test]
fn request_parse_errors() {
    assert_eq!(Request::parse(&[0, 0]).unwrap_err(), FrameError::Truncated);
    let mut f = frame_of(&header(None).to_bytes());
    f.push(0);
    assert_eq!(Request::parse(&f).unwrap_err(), FrameError::SizeMismatch);
    let g = frame_of(&[0, 18, 0]);
    assert_eq!(Request::parse(&g).unwrap_err(), FrameError::MalformedHeader);
}

#[test]
fn frame_status_decisions() {
    assert_eq!(frame_status(&[0, 0, 0], 100), FrameStatus::Incomplete);
    assert_eq!(frame_status(&[0, 0, 0, 3, 1, 2], 100), FrameStatus::Incomplete);
    assert_eq!(frame_status(&[0, 0, 0, 3, 1, 2, 3, 9], 100), FrameStatus::Complete(7));
    assert_eq!(frame_status(&[0, 0, 0, 0], 100), FrameStatus::Complete(4));
    assert_eq!(frame_status(&[0, 0, 1, 0], 100), FrameStatus::Rejected(FrameError::TooLarge));
    assert_eq!(frame_status(&[0xff, 0, 0, 0], 100), FrameStatus::Rejected(FrameError::NegativeSize));
    assert_eq!(
        frame_status(&[0x01, 0, 0, 1], DEFAULT_MAX_MESSAGE_SIZE),
        FrameStatus::Rejected(FrameError::TooLarge)
    );
}

#[test]
fn response_framing() {
    let body = vec![1u8, 2, 3, 4, 5];
    let f = frame_response(&body);
    assert_eq!(&f[..4], &[0, 0, 0, 5]);
    assert_eq!(&f[4..], &body[..]);
    assert_eq!(frame_response(&[]), vec![0, 0, 0, 0]);
}

#[test]
fn general_response_bytes() {
    let r = GeneralResponse::new(7, ErrorCode::UnsupportedVersion);
    assert_eq!(r.body(), vec![0, 0, 0, 7, 0, 35]);
    assert_eq!(r.to_bytes(), vec![0, 0, 0, 6, 0, 0, 0, 7, 0, 35]);
}
