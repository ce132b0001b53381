//! The source-map emission modes a host pipeline can ask for.

use vstd::prelude::*;
use vstd::string::*;

verus! {

/// How a source map is emitted alongside transformed output.
#[derive(Debug, Clone, Copy)]
pub enum SourceMapType {
    File,
    Inline,
    Hidden,
}

impl SourceMapType {
    /// Reads a mode from its lowercase name; the three names in the
    /// precondition are the only accepted inputs.
    pub fn from(value: String) -> (r: SourceMapType)
        requires
            value@ == "file"@ || value@ == "inline"@ || value@ == "hidden"@,
        ensures
            value@ == "file"@ ==> r is File,
            value@ == "inline"@ ==> r is Inline,
            value@ == "hidden"@ ==> r is Hidden,
    {
        proof {
            reveal_strlit("file");
            reveal_strlit("inline");
            reveal_strlit("hidden");
            assert("file"@.len() == 4);
            assert("inline"@.len() == 6);
            assert("hidden"@.len() == 6);
            assert("inline"@[0] == 'i' && "hidden"@[0] == 'h');
            assert("inline"@ != "hidden"@);
        }
        if value == "file".to_owned() {
            SourceMapType::File
        } else if value == "inline".to_owned() {
            SourceMapType::Inline
        } else {
            SourceMapType::Hidden
        }
    }
}

} // verus!
