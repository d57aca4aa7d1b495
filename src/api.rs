//! API keys, their version ranges, and protocol error codes.
use vstd::prelude::*;
use crate::codec::{i16_bytes, put_i16, put_u8};

verus! {

/// An API that this server answers.
#[derive(Debug, Clone, Copy, PartialEq, Eq, Structural)]
pub enum ApiType {
    ApiVersions,
    DescribeTopicPartitions,
    Fetch,
    Produce,
}

/// The API named by a request header: one of the supported ones, or not.
#[derive(Debug, Clone, Copy, PartialEq, Eq, Structural)]
pub enum ApiKey {
    ApiVersions,
    DescribeTopicPartitions,
    Fetch,
    Produce,
    Unsupported,
}

/// Error codes carried in responses.
#[derive(Debug, Clone, Copy, PartialEq, Eq, Structural)]
pub enum ErrorCode {
    Unknown,
    NoError,
    UnknownTopicOrPartition,
    UnsupportedVersion,
    UnknownTopicId,
}

/// The error code of a response, under the name that message builders use.
pub type KafkaError = ErrorCode;

/// Operations that a topic may authorise.
#[derive(Debug, Clone, Copy, PartialEq, Eq, Structural)]
pub enum TopicOp {
    Unknown,
    Any,
    All,
    Read,
    Write,
    Create,
    Delete,
    Alter,
    Describe,
    ClusterAction,
    DescribeConfigs,
    AlterConfigs,
    IdempotentWrite,
    CreateTokens,
    DescribeTokens,
}

pub open spec fn api_type_code(t: ApiType) -> i16 {
    match t {
        ApiType::ApiVersions => 18,
        ApiType::DescribeTopicPartitions => 75,
        ApiType::Fetch => 1,
        ApiType::Produce => 0,
    }
}

/// Inclusive range of versions served for each API.
pub open spec fn api_type_versions(t: ApiType) -> (i16, i16) {
    match t {
        ApiType::ApiVersions => (0, 4),
        ApiType::DescribeTopicPartitions => (0, 0),
        ApiType::Fetch => (0, 16),
        ApiType::Produce => (9, 11),
    }
}

pub open spec fn api_key_of(code: i16) -> ApiKey {
    if code == 18 {
        ApiKey::ApiVersions
    } else if code == 75 {
        ApiKey::DescribeTopicPartitions
    } else if code == 1 {
        ApiKey::Fetch
    } else if code == 0 {
        ApiKey::Produce
    } else {
        ApiKey::Unsupported
    }
}

pub open spec fn api_key_type(k: ApiKey) -> Option<ApiType> {
    match k {
        ApiKey::ApiVersions => Some(ApiType::ApiVersions),
        ApiKey::DescribeTopicPartitions => Some(ApiType::DescribeTopicPartitions),
        ApiKey::Fetch => Some(ApiType::Fetch),
        ApiKey::Produce => Some(ApiType::Produce),
        ApiKey::Unsupported => None,
    }
}

/// `version` lies in the served range of the API that `code` names.
pub open spec fn version_in_range(code: i16, version: i16) -> bool {
    match api_key_type(api_key_of(code)) {
        Some(t) => api_type_versions(t).0 <= version <= api_type_versions(t).1,
        None => false,
    }
}

pub open spec fn error_code_value(e: ErrorCode) -> i16 {
    match e {
        ErrorCode::Unknown => -1i16,
        ErrorCode::NoError => 0,
        ErrorCode::UnknownTopicOrPartition => 3,
        ErrorCode::UnsupportedVersion => 35,
        ErrorCode::UnknownTopicId => 100,
    }
}

pub open spec fn error_code_of(v: i16) -> ErrorCode {
    if v == 0 {
        ErrorCode::NoError
    } else if v == 3 {
        ErrorCode::UnknownTopicOrPartition
    } else if v == 35 {
        ErrorCode::UnsupportedVersion
    } else if v == 100 {
        ErrorCode::UnknownTopicId
    } else {
        ErrorCode::Unknown
    }
}

/// The APIs advertised by ApiVersions, in the order they are listed.
pub open spec fn supported_api_list() -> Seq<ApiType> {
    seq![ApiType::ApiVersions, ApiType::DescribeTopicPartitions, ApiType::Fetch, ApiType::Produce]
}

/// One entry of the ApiVersions list: key, min and max version, tag byte.
pub open spec fn api_entry_bytes(t: ApiType) -> Seq<u8> {
    i16_bytes(api_type_code(t)) + i16_bytes(api_type_versions(t).0) + i16_bytes(
        api_type_versions(t).1,
    ) + seq![0u8]
}

impl ApiType {
    pub fn code(&self) -> (r: i16)
        ensures
            r == api_type_code(*self),
    {
        match self {
            ApiType::ApiVersions => 18,
            ApiType::DescribeTopicPartitions => 75,
            ApiType::Fetch => 1,
            ApiType::Produce => 0,
        }
    }

    pub fn supported_versions(&self) -> (r: (i16, i16))
        ensures
            r == api_type_versions(*self),
    {
        match self {
            ApiType::ApiVersions => (0, 4),
            ApiType::DescribeTopicPartitions => (0, 0),
            ApiType::Fetch => (0, 16),
            ApiType::Produce => (9, 11),
        }
    }

    /// Appends this API's entry of the ApiVersions list.
    pub fn metadata(&self, buf: &mut Vec<u8>)
        ensures
            final(buf)@ == old(buf)@ + api_entry_bytes(*self),
    {
        let (min, max) = self.supported_versions();
        put_i16(buf, self.code());
        put_i16(buf, min);
        put_i16(buf, max);
        put_u8(buf, 0u8);
        assert(buf@ =~= old(buf)@ + api_entry_bytes(*self));
    }
}

impl ApiKey {
    pub fn from(code: i16) -> (r: ApiKey)
        ensures
            r == api_key_of(code),
    {
        if code == 18 {
            ApiKey::ApiVersions
        } else if code == 75 {
            ApiKey::DescribeTopicPartitions
        } else if code == 1 {
            ApiKey::Fetch
        } else if code == 0 {
            ApiKey::Produce
        } else {
            ApiKey::Unsupported
        }
    }

    /// The wire code; -1 for a key that is not served.
    pub fn into(self) -> (r: i16)
        ensures
            r == match api_key_type(self) {
                Some(t) => api_type_code(t),
                None => -1i16,
            },
    {
        match self.api_type() {
            Some(t) => t.code(),
            None => -1,
        }
    }

    pub fn api_type(&self) -> (r: Option<ApiType>)
        ensures
            r == api_key_type(*self),
    {
        match self {
            ApiKey::ApiVersions => Some(ApiType::ApiVersions),
            ApiKey::DescribeTopicPartitions => Some(ApiType::DescribeTopicPartitions),
            ApiKey::Fetch => Some(ApiType::Fetch),
            ApiKey::Produce => Some(ApiType::Produce),
            ApiKey::Unsupported => None,
        }
    }

    /// The served version range; `(-1, -1)` for a key that is not served.
    pub fn supported_versions(&self) -> (r: (i16, i16))
        ensures
            r == match api_key_type(*self) {
                Some(t) => api_type_versions(t),
                None => (-1i16, -1i16),
            },
    {
        match self.api_type() {
            Some(t) => t.supported_versions(),
            None => (-1, -1),
        }
    }

    /// Whether `api_version` is served for this key; never for `Unsupported`.
    pub fn is_supported(&self, api_version: i16) -> (r: bool)
        ensures
            r == match api_key_type(*self) {
                Some(t) => api_type_versions(t).0 <= api_version <= api_type_versions(t).1,
                None => false,
            },
    {
        match self.api_type() {
            Some(t) => {
                let (min, max) = t.supported_versions();
                min <= api_version && api_version <= max
            },
            None => false,
        }
    }
}

impl ErrorCode {
    pub fn code(&self) -> (r: i16)
        ensures
            r == error_code_value(*self),
    {
        match self {
            ErrorCode::Unknown => -1,
            ErrorCode::NoError => 0,
            ErrorCode::UnknownTopicOrPartition => 3,
            ErrorCode::UnsupportedVersion => 35,
            ErrorCode::UnknownTopicId => 100,
        }
    }

    /// The error for a wire code; codes without a name of their own are `Unknown`.
    pub fn from(v: i16) -> (r: ErrorCode)
        ensures
            r == error_code_of(v),
    {
        if v == 0 {
            ErrorCode::NoError
        } else if v == 3 {
            ErrorCode::UnknownTopicOrPartition
        } else if v == 35 {
            ErrorCode::UnsupportedVersion
        } else if v == 100 {
            ErrorCode::UnknownTopicId
        } else {
            ErrorCode::Unknown
        }
    }

    /// The two big-endian bytes of the code.
    pub fn to_bytes(&self) -> (r: Vec<u8>)
        ensures
            r@ == i16_bytes(error_code_value(*self)),
    {
        let mut r: Vec<u8> = Vec::new();
        put_i16(&mut r, self.code());
        assert(r@ =~= i16_bytes(error_code_value(*self)));
        r
    }
}

/// The APIs that ApiVersions advertises.
pub fn supported_apis() -> (r: Vec<ApiType>)
    ensures
        r@ == supported_api_list(),
{
    let r = vec![ApiType::ApiVersions, ApiType::DescribeTopicPartitions, ApiType::Fetch, ApiType::Produce];
    assert(r@ =~= supported_api_list());
    r
}

pub open spec fn topic_op_bit(op: TopicOp) -> u32 {
    match op {
        TopicOp::Unknown => 1,
        TopicOp::Any => 2,
        TopicOp::All => 4,
        TopicOp::Read => 8,
        TopicOp::Write => 16,
        TopicOp::Create => 32,
        TopicOp::Delete => 64,
        TopicOp::Alter => 128,
        TopicOp::Describe => 256,
        TopicOp::ClusterAction => 512,
        TopicOp::DescribeConfigs => 1024,
        TopicOp::AlterConfigs => 2048,
        TopicOp::IdempotentWrite => 4096,
        TopicOp::CreateTokens => 8192,
        TopicOp::DescribeTokens => 16384,
    }
}

/// The union of the bits of `ops`.
pub open spec fn ops_mask(ops: Seq<TopicOp>) -> u32
    decreases ops.len(),
{
    if ops.len() == 0 {
        0
    } else {
        ops_mask(ops.drop_last()) | topic_op_bit(ops.last())
    }
}

impl TopicOp {
    pub fn bit(&self) -> (r: u32)
        ensures
            r == topic_op_bit(*self),
    {
        match self {
            TopicOp::Unknown => 1,
            TopicOp::Any => 2,
            TopicOp::All => 4,
            TopicOp::Read => 8,
            TopicOp::Write => 16,
            TopicOp::Create => 32,
            TopicOp::Delete => 64,
            TopicOp::Alter => 128,
            TopicOp::Describe => 256,
            TopicOp::ClusterAction => 512,
            TopicOp::DescribeConfigs => 1024,
            TopicOp::AlterConfigs => 2048,
            TopicOp::IdempotentWrite => 4096,
            TopicOp::CreateTokens => 8192,
            TopicOp::DescribeTokens => 16384,
        }
    }

    /// The operations granted on a topic by default.
    pub fn default_ops() -> (r: Vec<TopicOp>)
        ensures
            r@ == seq![
                TopicOp::Read,
                TopicOp::Write,
                TopicOp::Create,
                TopicOp::Delete,
                TopicOp::Alter,
                TopicOp::Describe,
                TopicOp::DescribeConfigs,
                TopicOp::AlterConfigs,
            ],
    {
        let r = vec![
            TopicOp::Read,
            TopicOp::Write,
            TopicOp::Create,
            TopicOp::Delete,
            TopicOp::Alter,
            TopicOp::Describe,
            TopicOp::DescribeConfigs,
            TopicOp::AlterConfigs,
        ];
        assert(r@ =~= seq![
            TopicOp::Read,
            TopicOp::Write,
            TopicOp::Create,
            TopicOp::Delete,
            TopicOp::Alter,
            TopicOp::Describe,
            TopicOp::DescribeConfigs,
            TopicOp::AlterConfigs,
        ]);
        r
    }
}

/// The authorised-operations bit field of a set of operations.
pub fn authorized_operations(ops: &Vec<TopicOp>) -> (r: i32)
    ensures
        r == ops_mask(ops@) as i32,
{
    let mut auth: u32 = 0;
    let mut i: usize = 0;
    while i < ops.len()
        invariant
            i <= ops@.len(),
            auth == ops_mask(ops@.subrange(0, i as int)),
        decreases ops@.len() - i,
    {
        let b = ops[i].bit();
        assert(ops@.subrange(0, i + 1).drop_last() =~= ops@.subrange(0, i as int));
        auth = auth | b;
        i += 1;
    }
    assert(ops@.subrange(0, ops@.len() as int) =~= ops@);
    assert(ops_mask(ops@) < 32768) by {
        lemma_ops_mask_small(ops@);
    }
    auth as i32
}

proof fn lemma_ops_mask_small(ops: Seq<TopicOp>)
    ensures
        ops_mask(ops) < 32768,
    decreases ops.len(),
{
    if ops.len() > 0 {
        lemma_ops_mask_small(ops.drop_last());
        let (a, b) = (ops_mask(ops.drop_last()), topic_op_bit(ops.last()));
        assert(b < 32768);
        assert(a | b < 32768) by (bit_vector)
            requires
                a < 32768,
                b < 32768,
        ;
    }
}

} // verus!
