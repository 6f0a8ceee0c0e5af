//! Named templates for the configuration files that the proxy reads.

use vstd::prelude::*;

verus! {

/// A render context that comes with the template it fills.
pub trait Template {
    /// The name the template is registered under.
    const NAME: &'static str;

    /// The template text.
    const TEMPLATE: &'static str;
}

/// The context of the server block that answers an ACME HTTP challenge.
#[derive(Debug, Clone)]
pub struct AcmeTemplate {
    pub state: String,
    pub server_name: String,
    pub challenge_path: String,
    pub challenge: String,
}

impl Template for AcmeTemplate {
    const NAME: &'static str = "acme";

    const TEMPLATE: &'static str = "{state}
server \\{
    listen 80;
    server_name {server_name};

    location = {challenge_path} \\{
        default_type text/plain;
        return 200 \"{challenge}\";
    }
}
";
}

} // verus!
