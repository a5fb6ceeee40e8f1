//! The engine that returns canned text, so the full hotkey -> audio -> VAD ->
//! inject loop can be exercised with no C++ toolchain. It stays as the fixture
//! backend for integration tests.

use vstd::prelude::*;

verus! {

/// The mock engine.
#[derive(Debug, Clone, Copy, PartialEq, Eq, Structural)]
pub struct MockEngine;

impl Default for MockEngine {
    fn default() -> (r: MockEngine)
        ensures
            r == MockEngine,
    {
        MockEngine
    }
}

impl MockEngine {
    /// Human-readable name, shown in settings and logs.
    pub fn name(&self) -> (r: &'static str)
        ensures
            r@ == "mock"@,
    {
        "mock"
    }
}

} // verus!
