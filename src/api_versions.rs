//! ApiVersions: the served APIs and their version ranges.
use vstd::prelude::*;
use crate::api::{
    ApiType, ErrorCode, api_entry_bytes, error_code_value, supported_api_list, supported_apis,
    version_in_range,
};
use crate::codec::{compact_array, concat_map, i16_bytes, i32_bytes, lemma_concat_map_push, put_compact_count, put_i16, put_i32, put_u8};
use crate::frame::RequestHeader;

verus! {

pub open spec fn api_entry_item() -> spec_fn(ApiType) -> Seq<u8> {
    |t: ApiType| api_entry_bytes(t)
}

/// The ApiVersions body: correlation id (no header tag), error code, the
/// API list, throttle time, tag buffer.
pub open spec fn api_versions_body(cid: i32, error: ErrorCode, apis: Seq<ApiType>) -> Seq<u8> {
    i32_bytes(cid) + i16_bytes(error_code_value(error)) + compact_array(apis, api_entry_item())
        + i32_bytes(0) + seq![0u8]
}

/// The error for a request header: none when its version is served for its
/// API, else UnsupportedVersion.
pub open spec fn version_error(k: i16, v: i16) -> ErrorCode {
    if version_in_range(k, v) {
        ErrorCode::NoError
    } else {
        ErrorCode::UnsupportedVersion
    }
}

impl RequestHeader {
    pub fn version_supported(&self) -> (r: ErrorCode)
        ensures
            r == version_error(self.api_key, self.api_version),
    {
        let key = crate::api::ApiKey::from(self.api_key);
        if key.is_supported(self.api_version) {
            ErrorCode::NoError
        } else {
            ErrorCode::UnsupportedVersion
        }
    }
}

#[derive(Debug)]
pub struct ApiVersionResponse {
    pub correlation_id: i32,
    pub error: ErrorCode,
    pub api_keys: Vec<ApiType>,
}

impl ApiVersionResponse {
    /// The answer to an ApiVersions request with this header.
    pub fn new(req: &RequestHeader) -> (r: ApiVersionResponse)
        ensures
            r.correlation_id == req.correlation_id,
            r.error == version_error(req.api_key, req.api_version),
            r.api_keys@ == supported_api_list(),
    {
        ApiVersionResponse {
            correlation_id: req.correlation_id,
            error: req.version_supported(),
            api_keys: supported_apis(),
        }
    }

    /// The response body.
    pub fn to_bytes(&self) -> (r: Vec<u8>)
        ensures
            r@ == api_versions_body(self.correlation_id, self.error, self.api_keys@),
    {
        let ghost f = api_entry_item();
        let mut r: Vec<u8> = Vec::new();
        put_i32(&mut r, self.correlation_id);
        put_i16(&mut r, self.error.code());
        put_compact_count(&mut r, self.api_keys.len());
        let ghost start = r@;
        let mut k: usize = 0;
        while k < self.api_keys.len()
            invariant
                k <= self.api_keys@.len(),
                f == api_entry_item(),
                r@ == start + concat_map(self.api_keys@.subrange(0, k as int), f),
            decreases self.api_keys@.len() - k,
        {
            self.api_keys[k].metadata(&mut r);
            proof {
                assert(self.api_keys@.subrange(0, k + 1) =~= self.api_keys@.subrange(0, k as int).push(self.api_keys@[k as int]));
                lemma_concat_map_push(self.api_keys@.subrange(0, k as int), self.api_keys@[k as int], f);
            }
            k += 1;
        }
        assert(self.api_keys@.subrange(0, self.api_keys@.len() as int) =~= self.api_keys@);
        put_i32(&mut r, 0);
        put_u8(&mut r, 0);
        assert(r@ =~= api_versions_body(self.correlation_id, self.error, self.api_keys@));
        r
    }
}

} // verus!
