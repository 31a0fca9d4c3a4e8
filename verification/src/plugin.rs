//! How the plugin reads and resolves tags.

use vstd::prelude::*;

use crate::tag::parse::DEFAULT_DISCRIMINATOR;

verus! {

/// How the plugin reads and resolves tags.
#[derive(Clone, Debug)]
pub struct StageTagConfig {
    /// The `extras` property naming a node's tags.
    pub discriminator: String,
    /// How many nodes to resolve per frame, or `0` for no limit.
    ///
    /// Defaults to no limit: for a normal level the resolution pass is cheap,
    /// and a tag appearing a frame late is more surprising than a short hitch.
    /// Raise the limit off zero when streaming large levels.
    pub resolve_budget: usize,
}

impl Default for StageTagConfig {
    fn default() -> (r: Self)
        ensures
            r.discriminator@ == seq!['s', 't', 'a', 'g', 'e', '_', 't', 'a', 'g'],
            r.resolve_budget == 0,
    {
        proof {
            reveal_strlit("stage_tag");
        }
        assert(DEFAULT_DISCRIMINATOR@ =~= seq!['s', 't', 'a', 'g', 'e', '_', 't', 'a', 'g']);
        StageTagConfig { discriminator: DEFAULT_DISCRIMINATOR.to_owned(), resolve_budget: 0 }
    }
}

} // verus!
