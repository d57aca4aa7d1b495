//! Chooses the handler for a request by its API key and version.
use vstd::prelude::*;
use crate::api::{ApiKey, ErrorCode, api_key_of, supported_api_list, version_in_range};
use crate::api_versions::{ApiVersionResponse, api_versions_body};
use crate::codec::{bytes_at, i32_bytes};
use crate::describe_topics::{
    DescribeTopicsRequest, describe_request_bytes, describe_response_body, names_view,
    names_fit, sorted_names,
};
use crate::fetch::{FetchRequest, fetch_request_bytes, fetch_request_fits};
use crate::frame::{GeneralResponse, Request, error_body};
use crate::metadata::MetadataStore;
use crate::produce::{ProduceRequest, produce_request_bytes, produce_request_fits};

verus! {

/// What a request needs next.
#[derive(Debug)]
pub enum Handled {
    /// The response body is ready.
    Respond(Vec<u8>),
    /// A Fetch: its partition logs must be read, then its response built.
    Fetch(FetchRequest),
    /// A Produce: its log writes must be made, then its response built.
    Produce(ProduceRequest),
}

/// The payload of a served request could not be read; the connection closes.
#[derive(Debug, Clone, Copy, PartialEq, Eq, Structural)]
pub enum HandlerError {
    MalformedPayload,
}

/// Holds a request until it is dispatched.
#[derive(Debug)]
pub struct RequestParser {
    pub req: Request,
}

impl RequestParser {
    pub fn new(req: Request) -> (r: RequestParser)
        ensures
            r.req == req,
    {
        RequestParser { req }
    }

    /// Dispatches the request. An API that is not served, or a version out of
    /// its range, gets the short error body: the correlation id, then error
    /// code 35. A served request whose payload is the encoding of a request
    /// of its kind is answered.
    pub fn parse(self, store: &MetadataStore) -> (r: Result<Handled, HandlerError>)
        ensures
            ({
                let request = self.req;
                let (k, v, cid) = (
                    request.header.api_key,
                    request.header.api_version,
                    request.header.correlation_id,
                );
                &&& !version_in_range(k, v) ==> (r matches Ok(Handled::Respond(b)) && b@
                    == error_body(cid, ErrorCode::UnsupportedVersion))
                &&& !version_in_range(k, v) ==> (r matches Ok(Handled::Respond(b)) && b@.subrange(0, 6)
                    == i32_bytes(cid) + seq![0x00u8, 0x23u8])
                &&& version_in_range(k, v) && api_key_of(k) == ApiKey::ApiVersions ==> (r matches Ok(
                    Handled::Respond(b),
                ) && b@ == api_versions_body(cid, ErrorCode::NoError, supported_api_list()))
                &&& version_in_range(k, v) && api_key_of(k) == ApiKey::DescribeTopicPartitions ==> (
                r matches Ok(Handled::Respond(b)) ==> exists|names: Seq<Vec<u8>>, asked: Seq<Vec<u8>>, limit: i32, cursor: u8|
                    sorted_names(names) && asked.to_multiset() == names.to_multiset() && bytes_at(
                        request.payload@,
                        0,
                        describe_request_bytes(names_view(asked), limit, cursor),
                    ) && #[trigger] b@ == describe_response_body(cid, names_view(names), store.view()))
                &&& version_in_range(k, v) && api_key_of(k) == ApiKey::DescribeTopicPartitions ==> (
                forall|ys: Seq<Seq<u8>>, limit: i32, cursor: u8|
                    names_fit(ys) && #[trigger] bytes_at(request.payload@, 0, describe_request_bytes(ys, limit, cursor))
                        ==> r matches Ok(Handled::Respond(_)))
                &&& version_in_range(k, v) && api_key_of(k) == ApiKey::Fetch ==> (r is Ok ==> (r matches Ok(
                    Handled::Fetch(f),
                ) && f.header == request.header && bytes_at(request.payload@, 0, fetch_request_bytes(f))))
                &&& version_in_range(k, v) && api_key_of(k) == ApiKey::Fetch ==> (forall|x: FetchRequest|
                    fetch_request_fits(x) && #[trigger] bytes_at(request.payload@, 0, fetch_request_bytes(x))
                        ==> r matches Ok(Handled::Fetch(_)))
                &&& version_in_range(k, v) && api_key_of(k) == ApiKey::Produce ==> (r is Ok ==> (r matches Ok(
                    Handled::Produce(p),
                ) && p.header == request.header && bytes_at(
                    request.payload@,
                    0,
                    produce_request_bytes(p),
                )))
                &&& version_in_range(k, v) && api_key_of(k) == ApiKey::Produce ==> (forall|x: ProduceRequest|
                    produce_request_fits(x) && #[trigger] bytes_at(request.payload@, 0, produce_request_bytes(x))
                        ==> r matches Ok(Handled::Produce(_)))
            }),
    {
        let request = self.req;
        let key = ApiKey::from(request.header.api_key);
        let cid = request.header.correlation_id;
        if !key.is_supported(request.header.api_version) {
            let b = GeneralResponse::new(cid, ErrorCode::UnsupportedVersion).body();
            proof {
                lemma_unsupported_prefix(cid);
            }
            return Ok(Handled::Respond(b));
        }
        match key {
            ApiKey::ApiVersions => {
                let resp = ApiVersionResponse::new(&request.header);
                Ok(Handled::Respond(resp.to_bytes()))
            },
            ApiKey::DescribeTopicPartitions => {
                match DescribeTopicsRequest::new(request) {
                    Some(d) => {
                        let b = d.response(store);
                        Ok(Handled::Respond(b))
                    },
                    None => Err(HandlerError::MalformedPayload),
                }
            },
            ApiKey::Fetch => {
                match FetchRequest::new(request) {
                    Some(f) => Ok(Handled::Fetch(f)),
                    None => Err(HandlerError::MalformedPayload),
                }
            },
            _ => {
                match ProduceRequest::new(request) {
                    Some(p) => Ok(Handled::Produce(p)),
                    None => Err(HandlerError::MalformedPayload),
                }
            },
        }
    }
}

/// The short error body for an unserved version begins with the correlation
/// id and then the two bytes of error code 35.
pub proof fn lemma_unsupported_prefix(cid: i32)
    ensures
        error_body(cid, ErrorCode::UnsupportedVersion).subrange(0, 6) == i32_bytes(cid) + seq![
            0x00u8,
            0x23u8,
        ],
{
    let x: u16 = 35;
    assert((x >> 8u16) as u8 == 0 && x as u8 == 0x23) by (bit_vector)
        requires
            x == 35,
    ;
    assert(crate::codec::i16_bytes(35) =~= seq![0x00u8, 0x23u8]);
    assert(error_body(cid, ErrorCode::UnsupportedVersion).subrange(0, 6) =~= i32_bytes(cid) + seq![
        0x00u8,
        0x23u8,
    ]);
}

} // verus!
