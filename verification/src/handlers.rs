//! The handler bodies: pure functions from request input to response text.

use vstd::prelude::*;
use vstd::string::StringExecFns;

verus! {

/// The fixed text served at the root route.
pub open spec fn root_message() -> Seq<char> {
    "My name is Rajan Yadav"@
}

/// The fixed text served at the hello route.
pub open spec fn hello_world_message() -> Seq<char> {
    "Hello World"@
}

/// The greeting for a captured name: the name is interpolated verbatim,
/// with no validation or escaping, so an empty name yields `"Hello "`.
pub open spec fn greeting(name: Seq<char>) -> Seq<char> {
    "Hello "@ + name
}

/// Root handler: always the fixed name text.
pub fn root() -> (r: &'static str)
    ensures
        r@ == root_message(),
{
    "My name is Rajan Yadav"
}

/// Hello handler: always the fixed hello text.
pub fn handle_hello() -> (r: &'static str)
    ensures
        r@ == hello_world_message(),
{
    "Hello World"
}

/// Text greeting handler: returns exactly `"Hello {name}"`.
pub fn greet_user(name: &str) -> (r: String)
    ensures
        r@ == greeting(name@),
{
    let mut r = String::from_str("Hello ");
    r.append(name);
    r
}

/// The greeting payload: a record with a single `message` member,
/// built fresh per request and serialized by [`crate::json`].
pub struct GreetResponse {
    pub message: String,
}

/// JSON greeting handler: the payload's message is exactly `"Hello {name}"`.
pub fn greet_user_json(name: &str) -> (r: GreetResponse)
    ensures
        r.message@ == greeting(name@),
{
    GreetResponse { message: greet_user(name) }
}

} // verus!
