//! Command-line surface: the parsed command and its argument helpers.

use vstd::prelude::*;

verus! {

/// A parsed invocation of the gateway binary.
///
/// The unverified shell parses `argv` and hands the result over as one of
/// these values; everything past argument parsing works on this type.
pub struct Cli {
    pub command: Commands,
}

/// The subcommands the gateway understands.
pub enum Commands {
    /// Register a new tool server under `name`.
    Register { name: String, command: Vec<String>, env: Vec<(String, String)> },
    /// Remove a tool server by name.
    Unregister { name: String },
    /// List the registered tool servers.
    List,
    /// Run the aggregating server on stdio.
    Serve,
}

/// Splits a `KEY=VALUE` argument at its first `=`.
///
/// Returns the key/value pair when an `=` is present, and an error message
/// otherwise.
pub fn parse_env_var(s: &str) -> (r: Result<(String, String), String>)
    ensures
        match r {
            Ok((k, v)) => exists|p: int|
                0 <= p < s@.len() && s@[p] == '=' && (forall|j: int| 0 <= j < p ==> s@[j] != '=')
                    && k@ == s@.subrange(0, p) && v@ == s@.subrange(p + 1, s@.len() as int),
            Err(m) => m@ == "Invalid KEY=VALUE format: "@ + s@ && (forall|j: int|
                0 <= j < s@.len() ==> s@[j] != '='),
        },
{
    let chars = crate::json::str_to_chars(s);
    let mut i: usize = 0;
    while i < chars.len()
        invariant
            0 <= i <= chars.len(),
            chars@ == s@,
            forall|j: int| 0 <= j < i ==> s@[j] != '=',
        decreases chars.len() - i,
    {
        if chars[i] == '=' {
            let key = crate::json::chars_to_string_range(&chars, 0, i);
            let value = crate::json::chars_to_string_range(&chars, i + 1, chars.len());
            return Ok((key, value));
        }
        i = i + 1;
    }
    let mut msg = String::new();
    msg.append("Invalid KEY=VALUE format: ");
    msg.append(s);
    Err(msg)
}

} // verus!
