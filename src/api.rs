use vstd::prelude::*;

verus! {

/// The operations of the remote API.
#[derive(Clone, Copy, PartialEq, Eq, Structural)]
pub enum Endpoint {
    Models,
    ChatCompletions,
    Completions,
    Embeddings,
    ImageGenerations,
}

/// The documented path of each operation.
pub open spec fn default_path_of(e: Endpoint) -> Seq<char> {
    match e {
        Endpoint::Models => "/v1/models"@,
        Endpoint::ChatCompletions => "/v1/chat/completions"@,
        Endpoint::Completions => "/v1/completions"@,
        Endpoint::Embeddings => "/v1/embeddings"@,
        Endpoint::ImageGenerations => "/v1/images/generations"@,
    }
}

impl Endpoint {
    /// The documented path of this operation.
    pub fn default_path(self) -> (r: &'static str)
        ensures
            r@ == default_path_of(self),
    {
        match self {
            Endpoint::Models => "/v1/models",
            Endpoint::ChatCompletions => "/v1/chat/completions",
            Endpoint::Completions => "/v1/completions",
            Endpoint::Embeddings => "/v1/embeddings",
            Endpoint::ImageGenerations => "/v1/images/generations",
        }
    }
}

/// The path a request goes to: the caller's override, or else the operation's
/// documented path.
pub fn request_path(endpoint: Endpoint, opt_url_path: Option<String>) -> (r: String)
    ensures
        opt_url_path matches Some(p) ==> r@ == p@,
        opt_url_path is None ==> r@ == default_path_of(endpoint),
{
    match opt_url_path {
        Some(p) => p,
        None => endpoint.default_path().to_owned(),
    }
}

/// The status that marks a successful response.
pub const STATUS_OK: u16 = 200;

/// A response that did not succeed: its status and its body, verbatim.
pub struct ApiError {
    pub status: u16,
    pub body: String,
}

impl ApiError {
    /// The message of the error: the response body as the server sent it.
    pub fn message(&self) -> (r: &str)
        ensures
            r@ == self.body@,
    {
        self.body.as_str()
    }
}

/// Routes a response by its status: the body of a successful response is
/// handed on to be decoded; any other status is an error that carries the body.
pub fn check_status(status: u16, body: String) -> (r: Result<String, ApiError>)
    ensures
        status == STATUS_OK ==> r == Ok::<String, ApiError>(body),
        status != STATUS_OK ==> (r matches Err(e) && e.status == status && e.body == body),
{
    if status == STATUS_OK {
        Ok(body)
    } else {
        Err(ApiError { status, body })
    }
}

/// A generated image: a link to it, or its bytes encoded in base64.
pub enum ImageObject {
    Url(String),
    Base64Json(String),
}

/// The string an image result carries, whichever form it has.
pub open spec fn image_text(o: ImageObject) -> Seq<char> {
    match o {
        ImageObject::Url(s) => s@,
        ImageObject::Base64Json(s) => s@,
    }
}

impl ImageObject {
    /// The string this result carries.
    pub fn into_string(self) -> (r: String)
        ensures
            r@ == image_text(self),
    {
        match self {
            ImageObject::Url(s) => s,
            ImageObject::Base64Json(s) => s,
        }
    }
}

/// The strings that image results carry, in order.
pub fn image_strings(data: Vec<ImageObject>) -> (r: Vec<String>)
    ensures
        r@.map_values(|s: String| s@) == data@.map_values(|o: ImageObject| image_text(o)),
{
    let mut out: Vec<String> = Vec::new();
    let mut rest = data;
    while rest.len() > 0
        invariant
            data@.map_values(|o: ImageObject| image_text(o)) == out@.map_values(|s: String| s@)
                + rest@.map_values(|o: ImageObject| image_text(o)),
        decreases rest.len(),
    {
        let o = rest.remove(0);
        out.push(o.into_string());
    }
    out
}

} // verus!
