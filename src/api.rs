use vstd::prelude::*;

verus! {

/// Envelope for a payload or an error message, stamped with the time it was
/// made in milliseconds since the epoch.
#[derive(Debug, Clone)]
pub struct ApiResponse<T> {
    pub success: bool,
    pub data: Option<T>,
    pub error: Option<String>,
    pub timestamp: u64,
}

/// An error reported by a data source.
#[derive(Debug, Clone)]
pub struct ApiError {
    pub code: u16,
    pub message: String,
    pub details: Option<String>,
}

/// Settings for requests to a data source.
#[derive(Debug, Clone)]
pub struct ApiConfig {
    pub base_url: String,
    pub timeout_ms: u32,
    pub retry_count: u32,
    pub api_key: Option<String>,
}

impl<T> ApiResponse<T> {
    /// A successful response carrying `data`, stamped `timestamp`.
    pub fn success(data: T, timestamp: u64) -> (r: Self)
        ensures
            r.success,
            r.data == Some(data),
            r.error is None,
            r.timestamp == timestamp,
    {
        ApiResponse { success: true, data: Some(data), error: None, timestamp }
    }

    /// A failed response carrying `message`, stamped `timestamp`.
    pub fn error(message: String, timestamp: u64) -> (r: Self)
        ensures
            !r.success,
            r.data is None,
            r.error == Some(message),
            r.timestamp == timestamp,
    {
        ApiResponse { success: false, data: None, error: Some(message), timestamp }
    }
}

impl Default for ApiConfig {
    /// Ten-second timeout, three retries, no key.
    fn default() -> (r: Self)
        ensures
            r.base_url@ == "https://bitinfocharts.com/api"@,
            r.timeout_ms == 10_000,
            r.retry_count == 3,
            r.api_key is None,
    {
        ApiConfig {
            base_url: String::from_str("https://bitinfocharts.com/api"),
            timeout_ms: 10_000,
            retry_count: 3,
            api_key: None,
        }
    }
}

} // verus!
