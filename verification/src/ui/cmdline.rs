//! The options of the ui command.
//!
//! It serves a small web page for adjusting the camera while it is streaming,
//! without needing an MQTT broker. It listens on localhost only, so the controls
//! are not exposed to the network.
use vstd::prelude::*;

verus! {

/// The port to serve on when nothing else is asked
pub const DEFAULT_PORT: u16 = 8080;

/// Where to serve the page
#[derive(Debug)]
pub struct Opt {
    /// Port to serve the page on
    pub port: u16,
}

} // verus!
