use vstd::prelude::*;

use crate::error::Error;

verus! {

/// Output formats of the rendered changelog.
#[derive(Debug, Clone, Copy, PartialEq, Eq)]
pub enum OutputType {
    Yaml,
}

impl OutputType {
    /// Parses an output format name: `"yaml"` is the only one known.
    pub fn from_str(s: &str) -> (r: Result<OutputType, Error>)
        ensures
            s@ == "yaml"@ ==> r == Ok::<OutputType, Error>(OutputType::Yaml),
            s@ != "yaml"@ ==> (r matches Err(Error::OutputType(t)) && t@ == s@),
    {
        let owned = s.to_owned();
        if owned == "yaml".to_owned() {
            Ok(OutputType::Yaml)
        } else {
            Err(Error::OutputType(owned))
        }
    }
}

} // verus!
