//! Sequencing one request: from the request text and the filesystem's answer
//! to the way the response is delivered.

use crate::admission::ClientId;
use crate::bytes::{append, contains_seq, copy_bytes, occurs_at};
use crate::request::{carries_body, has_body, request_target, target_of};
use crate::response::{decimal, decimal_bytes};
use crate::resolver::{admin_marker, classify, resolve, Outcome, Probe, Resolution};
use vstd::prelude::*;
use vstd::string::*;

verus! {

/// The settings of the server, fixed at startup.
#[derive(Debug)]
pub struct Config {
    /// Responses are served from the frequency cache.
    pub caching: bool,
    /// Responses are streamed in fixed-size chunks.
    pub streaming: bool,
    /// Clients over the rate threshold are refused.
    pub blacklist: bool,
    /// The number of bodies the cache may hold.
    pub cache_num_max: usize,
    /// A client is refused once it has sent more than ten times this many
    /// requests in one window.
    pub requests_per_second_limit: i32,
    /// The addresses of the administrators.
    pub admin_ip: Vec<ClientId>,
}

impl Config {
    /// Whether `client` is an administrator: its address is among the
    /// configured ones.
    pub fn is_admin(&self, client: ClientId) -> (r: bool)
        ensures
            r == self.admin_ip@.contains(client),
    {
        let mut i: usize = 0;
        while i < self.admin_ip.len()
            invariant
                i <= self.admin_ip@.len(),
                forall|j: int| 0 <= j < i ==> self.admin_ip@[j] != client,
            decreases self.admin_ip.len() - i,
        {
            if self.admin_ip[i] == client {
                return true;
            }
            i += 1;
        }
        false
    }
}

/// How one request is answered.
#[derive(Debug, PartialEq, Eq)]
pub enum Route {
    /// The request line names no target: nothing is sent.
    Malformed,
    /// The fixed body for this status is sent, buffered.
    ErrorPage(u16),
    /// The file at this path is served through the cache.
    Cache(Vec<u8>),
    /// The file at this path is streamed from disk.
    Stream(Vec<u8>),
    /// The file at this path is read whole and sent in one write.
    Buffer(Vec<u8>),
}

/// The mathematical value of a `Route`.
pub ghost enum RouteView {
    Malformed,
    ErrorPage(int),
    Cache(Seq<u8>),
    Stream(Seq<u8>),
    Buffer(Seq<u8>),
}

impl View for Route {
    type V = RouteView;

    open spec fn view(&self) -> RouteView {
        match self {
            Route::Malformed => RouteView::Malformed,
            Route::ErrorPage(s) => RouteView::ErrorPage(*s as int),
            Route::Cache(p) => RouteView::Cache(p@),
            Route::Stream(p) => RouteView::Stream(p@),
            Route::Buffer(p) => RouteView::Buffer(p@),
        }
    }
}

/// The route of a classified target: a fixed error body for each class but
/// found; for a found path the cache where caching is on, else streaming where
/// that is on, else one buffered write.
pub open spec fn route_of(outcome: Outcome, caching: bool, streaming: bool) -> RouteView {
    match outcome {
        Outcome::NotFound => RouteView::ErrorPage(404),
        Outcome::Forbidden => RouteView::ErrorPage(403),
        Outcome::Unauthorized => RouteView::ErrorPage(401),
        Outcome::Found(path) => if caching {
            RouteView::Cache(path)
        } else if streaming {
            RouteView::Stream(path)
        } else {
            RouteView::Buffer(path)
        },
    }
}

/// The file that holds the fixed body for `status`: it lies in the served
/// directory under the number of the status.
pub open spec fn error_page_of(status: nat) -> Seq<u8> {
    "./files/".spec_bytes() + decimal(status)
}

/// The path of the fixed body for `status`.
pub fn error_page(status: u16) -> (r: Vec<u8>)
    ensures
        r@ == error_page_of(status as nat),
{
    let mut out = copy_bytes("./files/".as_bytes());
    let digits = decimal_bytes(status as u64);
    append(&mut out, digits.as_slice());
    out
}

/// The request counts as valid: it was routed to a resource.
pub open spec fn is_valid(route: RouteView) -> bool {
    route is Cache || route is Stream || route is Buffer
}

/// Routes a classified target.
pub fn route(resolution: Resolution, config: &Config) -> (r: Route)
    ensures
        r@ == route_of(resolution@, config.caching, config.streaming),
{
    match resolution {
        Resolution::NotFound => Route::ErrorPage(404),
        Resolution::Forbidden => Route::ErrorPage(403),
        Resolution::Unauthorized => Route::ErrorPage(401),
        Resolution::Found(path) => {
            if config.caching {
                Route::Cache(path)
            } else if config.streaming {
                Route::Stream(path)
            } else {
                Route::Buffer(path)
            }
        },
    }
}

/// Validates the target of `message` and chooses how to answer. `root` is the
/// served root in absolute form and `probe` what the filesystem said of the
/// candidate path of the target.
pub fn file_validation(
    message: &[u8],
    root: &[u8],
    probe: Probe,
    is_admin: bool,
    config: &Config,
) -> (r: Route)
    ensures
        r@ == match target_of(message@) {
            None => RouteView::Malformed,
            Some(target) => route_of(
                resolve(target, root@, probe@, is_admin),
                config.caching,
                config.streaming,
            ),
        },
{
    match request_target(message) {
        None => Route::Malformed,
        Some(target) => {
            let resolution = classify(target.as_slice(), root, probe, is_admin);
            route(resolution, config)
        },
    }
}

/// Where the body of a response on the cache route comes from.
#[derive(Debug, PartialEq, Eq)]
pub enum Source {
    /// The cached body.
    Memory(Vec<u8>),
    /// The file, read anew.
    Disk,
}

/// Chooses between the cached body and the file. The cached body is used
/// where there is one and the request carries no body of its own.
pub fn cached_source(message: &[u8], cached: Option<Vec<u8>>) -> (r: Source)
    ensures
        match r {
            Source::Memory(body) => !has_body(message@) && cached == Some(body),
            Source::Disk => has_body(message@) || cached is None,
        },
{
    match cached {
        Some(body) => {
            if carries_body(message) {
                Source::Disk
            } else {
                Source::Memory(body)
            }
        },
        None => Source::Disk,
    }
}

/// A target that resolves to a file outside the served root is answered with
/// the forbidden body, whoever asks and whatever the settings, and is not
/// counted as valid.
pub proof fn lemma_escape_is_forbidden(
    target: Seq<u8>,
    root: Seq<u8>,
    path: Seq<u8>,
    is_admin: bool,
    caching: bool,
    streaming: bool,
)
    requires
        !occurs_at(path, root, 0),
    ensures
        route_of(resolve(target, root, (Some(path), false), is_admin), caching, streaming)
            == RouteView::ErrorPage(403),
        !is_valid(
            route_of(resolve(target, root, (Some(path), true), is_admin), caching, streaming),
        ),
{
}

/// A target that does not exist or names a directory is answered with the
/// not-found body, whoever asks and whatever the settings.
pub proof fn lemma_missing_is_not_found(
    target: Seq<u8>,
    root: Seq<u8>,
    probe: (Option<Seq<u8>>, bool),
    is_admin: bool,
    caching: bool,
    streaming: bool,
)
    requires
        probe.0 is None || probe.1,
    ensures
        route_of(resolve(target, root, probe, is_admin), caching, streaming)
            == RouteView::ErrorPage(404),
{
}

/// A reserved target that names a file under the served root is answered
/// with the unauthorized body where the client is no administrator, and is
/// served as any other file where it is one.
pub proof fn lemma_reserved_needs_admin(
    target: Seq<u8>,
    root: Seq<u8>,
    path: Seq<u8>,
    caching: bool,
    streaming: bool,
)
    requires
        contains_seq(target, admin_marker()),
        occurs_at(path, root, 0),
    ensures
        route_of(resolve(target, root, (Some(path), false), false), caching, streaming)
            == RouteView::ErrorPage(401),
        route_of(resolve(target, root, (Some(path), false), true), caching, streaming)
            == route_of(Outcome::Found(path), caching, streaming),
        is_valid(route_of(resolve(target, root, (Some(path), false), true), caching, streaming)),
{
}

/// A request counts as valid exactly where its target was found.
pub proof fn lemma_valid_is_found(outcome: Outcome, caching: bool, streaming: bool)
    ensures
        is_valid(route_of(outcome, caching, streaming)) <==> outcome is Found,
{
}

} // verus!
