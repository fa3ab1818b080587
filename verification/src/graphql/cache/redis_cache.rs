//! The error of a cache kept in Redis.

use vstd::prelude::*;

verus! {

/// The outside error type of the Redis client.
#[verifier::external_type_specification]
#[verifier::external_body]
pub struct ExRedisError(redis::RedisError);

/// A failure to open the connection to Redis.
#[derive(Debug, PartialEq, Eq, Structural, Copy, Clone)]
pub enum RedisCacheError {
    CreateError,
}

impl From<redis::RedisError> for RedisCacheError {
    /// Any error of the Redis client is a failure to open the connection.
    fn from(_err: redis::RedisError) -> (r: RedisCacheError)
        ensures
            r == RedisCacheError::CreateError,
    {
        RedisCacheError::CreateError
    }
}

impl vstd::std_specs::convert::FromSpecImpl<redis::RedisError> for RedisCacheError {
    open spec fn obeys_from_spec() -> bool {
        true
    }

    open spec fn from_spec(v: redis::RedisError) -> RedisCacheError {
        RedisCacheError::CreateError
    }
}

} // verus!
