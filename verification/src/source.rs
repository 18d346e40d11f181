//! How loading an asset fails, and what an HTTP reply means for a load.
use vstd::prelude::*;

verus! {

/// Why an asset could not be loaded.
#[derive(Debug, Clone)]
pub enum SourceError {
    /// Nothing is stored where the asset was looked for.
    NotFound(String),
    /// There is no place to load the asset from.
    NoSource,
    /// Any other failure, with its message and the name of its kind.
    Other { message: String, name: String },
}

/// The text of an error.
pub open spec fn error_message(e: SourceError) -> Seq<char> {
    match e {
        SourceError::NotFound(msg) => msg@,
        SourceError::NoSource => NO_SOURCE_MESSAGE@,
        SourceError::Other { message, .. } => message@,
    }
}

/// What a missing source says.
pub const NO_SOURCE_MESSAGE: &'static str = "no source provided";

/// The kind name of a reply with a status that is neither success nor 404.
pub const UNSUPPORTED_STATUS: &'static str = "Unsupported HTTP Status";

/// The kind name of a request that got no reply.
pub const REQUEST_FAILED: &'static str = "Request failed";

impl SourceError {
    /// The text of the error: the message it carries, or "no source provided".
    pub fn message(&self) -> (r: String)
        ensures
            r@ == error_message(*self),
    {
        match self {
            SourceError::NotFound(msg) => msg.clone(),
            SourceError::NoSource => String::from_str(NO_SOURCE_MESSAGE),
            SourceError::Other { message, .. } => message.clone(),
        }
    }
}

/// Where an asset is loaded from and saved to.
#[derive(Debug, Clone)]
pub enum AssetSource {
    /// A file.
    Path(String),
    /// An address on the web.
    Url(String),
    /// Nowhere.
    Nowhere,
}

impl AssetSource {
    /// The first step of loading: a file path or a URL to read from, or, for
    /// no source, the `NoSource` error.
    pub fn location(&self) -> (r: Result<&String, SourceError>)
        ensures
            match *self {
                AssetSource::Path(p) => r matches Ok(l) && *l == p,
                AssetSource::Url(u) => r matches Ok(l) && *l == u,
                AssetSource::Nowhere => r matches Err(SourceError::NoSource),
            },
    {
        match self {
            AssetSource::Path(p) => Ok(p),
            AssetSource::Url(u) => Ok(u),
            AssetSource::Nowhere => Err(SourceError::NoSource),
        }
    }
}

/// A reply to an HTTP request.
#[derive(Debug, Clone)]
pub struct HttpResponse {
    pub status: u16,
    pub status_text: String,
    pub bytes: Vec<u8>,
}

/// What a request for an asset at `url` gives: the body of a 2xx reply; for
/// 404, `NotFound` with the URL; for another status, `Other` with the status
/// text; for a request that got no reply, `Other` with its error.
pub fn handle_response_from_url(url: String, response: Result<HttpResponse, String>) -> (r: Result<
    Vec<u8>,
    SourceError,
>)
    ensures
        match response {
            Ok(reply) => if 200 <= reply.status < 300 {
                r matches Ok(body) && body@ == reply.bytes@
            } else if reply.status == 404 {
                r matches Err(SourceError::NotFound(u)) && u@ == url@
            } else {
                r matches Err(SourceError::Other { message, name }) && message@ == reply.status_text@
                    && name@ == UNSUPPORTED_STATUS@
            },
            Err(e) => r matches Err(SourceError::Other { message, name }) && message@ == e@ && name@
                == REQUEST_FAILED@,
        },
{
    match response {
        Ok(reply) => {
            if 200 <= reply.status && reply.status < 300 {
                Ok(reply.bytes)
            } else if reply.status == 404 {
                Err(SourceError::NotFound(url))
            } else {
                Err(
                    SourceError::Other {
                        message: reply.status_text,
                        name: String::from_str(UNSUPPORTED_STATUS),
                    },
                )
            }
        },
        Err(e) => Err(SourceError::Other { message: e, name: String::from_str(REQUEST_FAILED) }),
    }
}

} // verus!
