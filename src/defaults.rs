//! Built-in settings.

use vstd::prelude::*;

verus! {

/// The shortcut of the engine used when a query names none.
pub fn engine() -> (r: String)
    ensures
        r@ == "DuckDuckGo"@,
{
    String::from_str("DuckDuckGo")
}

/// The port the service listens on unless configured otherwise.
pub fn port() -> (r: u16)
    ensures
        r == 9321,
{
    9321
}

/// The default engine's shortcut as the catalog keys it.
pub fn default_engine() -> (r: String)
    ensures
        r@ == "duckduckgo"@,
{
    String::from_str("duckduckgo")
}

} // verus!
