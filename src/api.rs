//! The uniform response envelope of the HTTP service, and the key its
//! authentication layer checks.
use vstd::prelude::*;

verus! {

/// A response: either data, or an error message.
pub struct ApiResponse<T> {
    pub success: bool,
    pub data: Option<T>,
    pub error: Option<String>,
    pub message: Option<String>,
}

impl<T> ApiResponse<T> {
    /// A successful response carrying `data`.
    pub fn success(data: T) -> (r: Self)
        ensures
            r.success,
            r.data == Some(data),
            r.error is None,
            r.message is None,
    {
        ApiResponse { success: true, data: Some(data), error: None, message: None }
    }

    /// A failed response carrying `message` as its error.
    pub fn error(message: String) -> (r: Self)
        ensures
            !r.success,
            r.data is None,
            r.error == Some(message),
            r.message is None,
    {
        ApiResponse { success: false, data: None, error: Some(message), message: None }
    }
}

/// The authentication layer: requests must present this key.
pub struct AuthMiddleware {
    pub api_key: String,
}

impl AuthMiddleware {
    /// A layer that accepts `api_key`.
    pub fn new(api_key: String) -> (r: Self)
        ensures
            r.api_key == api_key,
    {
        AuthMiddleware { api_key }
    }
}

} // verus!
