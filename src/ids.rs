//! The settings of the plugin that names chunks after their modules.
use vstd::prelude::*;
use vstd::string::StringExecFns;

verus! {

/// Names chunks after their modules, joining parts with `delimiter`,
/// relative to `context` where one is given.
pub struct NamedChunkIdsPlugin {
    pub delimiter: String,
    pub context: Option<String>,
}

impl NamedChunkIdsPlugin {
    /// The delimiter is `-` where none is given.
    pub fn new(delimiter: Option<String>, context: Option<String>) -> (r: NamedChunkIdsPlugin)
        ensures
            match delimiter {
                Some(d) => r.delimiter == d,
                None => r.delimiter@ == "-"@,
            },
            r.context == context,
    {
        let delimiter = match delimiter {
            Some(d) => d,
            None => String::from_str("-"),
        };
        NamedChunkIdsPlugin { delimiter, context }
    }
}

} // verus!
