//! Where the remote source listens.

use vstd::prelude::*;

verus! {

/// The host of the remote source.
pub const HOST: &'static str = "localhost";

/// The port of the remote source.
pub const PORT: u16 = 42041;

/// A host and a port that name the remote source. The value is fixed when a
/// connection manager is made and never changes afterwards.
#[derive(Clone, Debug, PartialEq, Eq)]
pub struct Endpoint {
    pub host: String,
    pub port: u16,
}

/// What an [`Endpoint`] holds, as mathematical values.
pub struct EndpointView {
    pub host: Seq<char>,
    pub port: u16,
}

impl View for Endpoint {
    type V = EndpointView;

    open spec fn view(&self) -> EndpointView {
        EndpointView { host: self.host@, port: self.port }
    }
}

/// The endpoint of the remote source on this machine.
pub open spec fn local_endpoint() -> EndpointView {
    EndpointView { host: HOST@, port: PORT }
}

impl Endpoint {
    /// The endpoint with the given host and port.
    pub fn new(host: String, port: u16) -> (endpoint: Endpoint)
        ensures
            endpoint@ == (EndpointView { host: host@, port }),
    {
        Endpoint { host, port }
    }

    /// The endpoint of the remote source on this machine.
    pub fn local() -> (endpoint: Endpoint)
        ensures
            endpoint@ == local_endpoint(),
    {
        Endpoint { host: HOST.to_owned(), port: PORT }
    }

    /// A second value that names the same endpoint.
    pub fn duplicate(&self) -> (endpoint: Endpoint)
        ensures
            endpoint@ == self@,
    {
        Endpoint { host: self.host.clone(), port: self.port }
    }
}

} // verus!
