//! The static configuration a process runs with. Reading it from the
//! environment happens outside the library; the library only carries the
//! values.

use vstd::prelude::*;

verus! {

/// Where to save images, which port the cluster serves requests on, and the
/// configured server addresses. The election protocol is agnostic to how
/// many servers the list names.
pub struct Config {
    pub save_dir: String,
    pub request_port: u16,
    pub server_ips: Vec<String>,
}

} // verus!
