//! The assistant platforms a helper skill can be installed for.

use vstd::prelude::*;

verus! {

/// A supported assistant platform.
#[derive(Debug, Clone, Copy)]
pub enum Platform {
    Agent,
    OpenCode,
    Codex,
}

impl Platform {
    /// The platform's display name.
    pub fn name(&self) -> (r: &'static str)
        ensures
            self is Agent ==> r@ == "Agent"@,
            self is OpenCode ==> r@ == "OpenCode"@,
            self is Codex ==> r@ == "Codex"@,
    {
        match self {
            Platform::Agent => "Agent",
            Platform::OpenCode => "OpenCode",
            Platform::Codex => "Codex",
        }
    }
}

} // verus!
