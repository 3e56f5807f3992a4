//! The HTTP server: where a request goes and the content types of the
//! responses.

use vstd::prelude::*;

verus! {

//------------ ContentType ---------------------------------------------------

/// The value of the `Content-Type` header of a response.
#[derive(Clone, Copy, Debug)]
pub struct ContentType(&'static str);

impl ContentType {
    /// CSV with a header line.
    pub fn csv() -> (res: ContentType)
        ensures
            res.spec_value() == "text/csv;charset=utf-8;header=present"@,
    {
        ContentType("text/csv;charset=utf-8;header=present")
    }

    /// JSON.
    pub fn json() -> (res: ContentType)
        ensures
            res.spec_value() == "application/json"@,
    {
        ContentType("application/json")
    }

    /// Plain text.
    pub fn text() -> (res: ContentType)
        ensures
            res.spec_value() == "text/plain;charset=utf-8"@,
    {
        ContentType("text/plain;charset=utf-8")
    }

    /// The Prometheus text-based exposition format.
    pub fn prometheus() -> (res: ContentType)
        ensures
            res.spec_value() == "text/plain; version=0.0.4"@,
    {
        ContentType("text/plain; version=0.0.4")
    }

    /// The header value.
    pub closed spec fn spec_value(&self) -> Seq<char> {
        self.0@
    }

    /// Creates a content type from a header value.
    pub fn external(value: &'static str) -> (res: ContentType)
        ensures
            res.spec_value() == value@,
    {
        ContentType(value)
    }

    /// Returns the header value.
    pub fn value(&self) -> (res: &'static str)
        ensures
            res@ == self.spec_value(),
    {
        self.0
    }
}


//------------ Route ---------------------------------------------------------

/// Where the HTTP server sends a request.
#[derive(Clone, Copy, Debug, PartialEq, Eq, Structural)]
pub enum Route {
    /// The request doesn’t use the GET method: Method Not Allowed.
    MethodNotAllowed,

    /// The metrics in Prometheus format.
    Metrics,

    /// The metrics in plain text.
    Status,

    /// The resources registered by the components, Not Found if none of
    /// them takes the request.
    Resources,
}

/// Where a request goes: only GET is allowed, `/metrics` and `/status` are
/// the server’s own, all other paths go to the registered resources.
pub open spec fn route_of(is_get: bool, path: Seq<char>) -> Route {
    if !is_get {
        Route::MethodNotAllowed
    } else if path == "/metrics"@ {
        Route::Metrics
    } else if path == "/status"@ {
        Route::Status
    } else {
        Route::Resources
    }
}

/// Returns whether two texts are equal.
pub fn same_text(a: &str, b: &str) -> (res: bool)
    ensures
        res == (a@ == b@),
{
    let n = a.unicode_len();
    if b.unicode_len() != n {
        return false;
    }
    let mut i: usize = 0;
    while i < n
        invariant
            n == a@.len(),
            n == b@.len(),
            i <= n,
            forall|j: int| 0 <= j < i ==> a@[j] == b@[j],
        decreases n - i,
    {
        if a.get_char(i) != b.get_char(i) {
            return false;
        }
        i = i + 1;
    }
    assert(a@ =~= b@);
    true
}

/// Returns where a request with the given method and path goes.
pub fn route(is_get: bool, path: &str) -> (res: Route)
    ensures
        res == route_of(is_get, path@),
{
    if !is_get {
        Route::MethodNotAllowed
    } else if same_text(path, "/metrics") {
        Route::Metrics
    } else if same_text(path, "/status") {
        Route::Status
    } else {
        Route::Resources
    }
}

} // verus!
