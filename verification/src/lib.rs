use vstd::prelude::*;

pub mod cache;
pub mod identity;
pub mod resolve;
pub mod rewrite;
pub mod scan;
pub mod text;

verus! {

/// Prerenders embedded diagram blocks in document text as image references.
pub struct PumlPreprocessor;

impl PumlPreprocessor {
    /// The name this preprocessor reports to its host.
    pub fn name(&self) -> (r: &'static str)
        ensures
            r@ == "plantuml-preprocessor"@,
    {
        "plantuml-preprocessor"
    }
}

} // verus!
