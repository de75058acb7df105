//! Script assets. The store-side record of one loaded script: its source
//! text (already translated to plain JavaScript) and the path it came
//! from. Reading script files and translating TypeScript happen outside
//! this crate; this module only holds the resulting plain values.

use vstd::prelude::*;

verus! {

/// One loaded script: its source text and its origin path.
pub struct JsScript {
    pub source: String,
    pub path: String,
}

impl JsScript {
    pub fn new(source: String, path: String) -> (r: JsScript)
        ensures
            r.source == source,
            r.path == path,
    {
        JsScript { source, path }
    }
}

/// The loader for script assets; file reading and translation live with
/// the embedding, so the library side only names the file extensions the
/// loader accepts.
pub struct JsScriptLoader;

impl JsScriptLoader {
    /// The file extensions this loader handles.
    pub fn extensions(&self) -> (r: Vec<String>)
        ensures
            r@.len() == 2,
            r@[0]@ == "js"@,
            r@[1]@ == "ts"@,
    {
        let mut v: Vec<String> = Vec::new();
        v.push("js".to_owned());
        v.push("ts".to_owned());
        v
    }
}

} // verus!
