//! The response envelope an HTTP front end wraps library results in.

use vstd::prelude::*;

verus! {

/// A uniform success/error envelope: exactly one of `data` and `error` is
/// set.
pub struct ApiResponse<T> {
    pub success: bool,
    pub data: Option<T>,
    pub error: Option<String>,
}

impl<T> ApiResponse<T> {
    /// A successful response carrying `data`.
    pub fn success(data: T) -> (r: ApiResponse<T>)
        ensures
            r.success == true,
            r.data == Some(data),
            r.error is None,
    {
        ApiResponse { success: true, data: Some(data), error: None }
    }

    /// A failed response carrying `message`.
    pub fn error(message: String) -> (r: ApiResponse<T>)
        ensures
            r.success == false,
            r.data is None,
            r.error == Some(message),
    {
        ApiResponse { success: false, data: None, error: Some(message) }
    }
}

} // verus!
