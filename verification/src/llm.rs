//! The bridge toward an external language model: the library holds only
//! the bridge's configuration.  The HTTP exchange itself is asynchronous
//! I/O and lives outside the library; its replies re-enter the core as
//! ordinary low-intensity learning calls.
use vstd::prelude::*;

verus! {

use vstd::string::StringExecFns;

/// Configuration of the language-model bridge: where to reach it and
/// which model to ask for.
pub struct LLMBridge {
    pub base_url: String,
    pub model: String,
}

impl LLMBridge {
    /// A bridge toward a local language-model endpoint.
    pub fn new(model: &str) -> (r: LLMBridge)
        ensures
            r.base_url@ == "http://localhost:11434"@,
            r.model@ == model@,
    {
        LLMBridge { base_url: "http://localhost:11434".to_owned(), model: model.to_owned() }
    }
}

} // verus!
