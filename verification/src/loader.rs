//! What the loader records on each glTF node as the asset loads.
//!
//! Each node's `extras` are parsed once per asset load rather than once per
//! spawn. Most nodes in a level are plain geometry; recording metadata for
//! them would cost memory and resolution time for nothing, so a node is only
//! worth baking if it carries metadata or its name matches a tag the game
//! registered.

use vstd::prelude::*;

use crate::persist::StageNodeId;
use crate::tag::component::StageTags;
use crate::tag::parse::{
    build_stage_tags, error_view, opt_text, spec_build_stage_tags, TagParseError,
};
use crate::tag::value::{normalize, normalize_key};
use crate::text::TextSet;

verus! {

/// Whether a node's record is worth keeping: it carries metadata of its own,
/// or its base name matches (by normalized spelling) a registered tag.
pub open spec fn spec_worth_baking(
    tags: crate::tag::component::StageTagsModel,
    known: Set<Seq<char>>,
) -> bool {
    ||| !(tags.tags.len() == 0 && tags.extras.len() == 0 && tags.name_params.len() == 0)
    ||| known.contains(normalize(tags.base_name))
}

/// Whether a node's record is worth keeping, given the normalized names of
/// the registered tags.
pub fn worth_baking(tags: &StageTags, known_names: &TextSet) -> (r: bool)
    ensures
        r == spec_worth_baking(tags@, known_names@),
{
    if !tags.is_empty() {
        return true;
    }
    let key = normalize_key(tags.base_name.as_str());
    known_names.contains(key.as_str())
}

/// What the loader keeps for one node.
pub struct NodeBake {
    /// The node's parsed metadata.
    pub tags: StageTags,
    /// Why the node's `extras` were ignored, if they were malformed.
    pub error: Option<TagParseError>,
    /// The node's stable identity, when its record is kept.
    pub node_id: Option<StageNodeId>,
}

/// Parse one node as the glTF loads: its metadata, any error in its
/// `extras`, and — only for a node worth baking — its glTF node index as a
/// stable identity across reloads.
pub fn bake_node(
    name: &str,
    extras: Option<&str>,
    index: u32,
    discriminator: &str,
    known_names: &TextSet,
) -> (r: NodeBake)
    ensures
        (r.tags@, error_view(r.error)) == spec_build_stage_tags(name@, opt_text(extras), discriminator@),
        r.node_id == (if spec_worth_baking(r.tags@, known_names@) {
            Some(StageNodeId(index))
        } else {
            None
        }),
{
    let (tags, error) = build_stage_tags(name, extras, discriminator);
    let node_id = if worth_baking(&tags, known_names) {
        Some(StageNodeId(index))
    } else {
        None
    };
    NodeBake { tags, error, node_id }
}

} // verus!
