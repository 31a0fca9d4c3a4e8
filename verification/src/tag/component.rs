//! The records that carry parsed metadata from load time to spawn time.

use vstd::prelude::*;

use crate::tag::value::{clone_params, TagParams, ValueModel};
use crate::text::same_text;

verus! {

/// Which authoring channel a tag came from.
///
/// Recorded so that conflicts resolve predictably and so diagnostics can tell
/// an artist where a tag was picked up from.
#[derive(Clone, Copy, Debug, PartialEq, Eq, Hash, Structural)]
pub enum TagSource {
    /// The reserved discriminator property in the node's glTF `extras`.
    Extras,
    /// The node's name matched a registered tag.
    Name,
    /// An `extras` property whose key named a registered reflected component.
    Reflection,
}

impl Default for TagSource {
    fn default() -> (r: Self)
        ensures
            r == TagSource::Extras,
    {
        TagSource::Extras
    }
}

/// What a [`StageTag`] holds.
pub struct TagModel {
    pub key: Seq<char>,
    pub params: Map<Seq<char>, ValueModel>,
    pub source: TagSource,
}

/// One tag found on a node.
#[derive(Debug, PartialEq)]
pub struct StageTag {
    /// The tag name, as authored or, once resolved, as registered.
    pub key: String,
    /// The tag's parameters.
    pub params: TagParams,
    /// Where the tag was read from.
    pub source: TagSource,
}

impl View for StageTag {
    type V = TagModel;

    open spec fn view(&self) -> TagModel {
        TagModel { key: self.key@, params: self.params@, source: self.source }
    }
}

/// The models of a list of tags.
pub open spec fn tags_model(tags: Seq<StageTag>) -> Seq<TagModel> {
    tags.map_values(|t: StageTag| t@)
}

impl StageTag {
    /// A tag with no parameters.
    pub fn new(key: String, source: TagSource) -> (r: Self)
        ensures
            r@ == (TagModel { key: key@, params: Map::empty(), source }),
    {
        StageTag { key, params: TagParams::new(), source }
    }
}

impl Clone for StageTag {
    fn clone(&self) -> (r: Self)
        ensures
            r@ == self@,
    {
        StageTag { key: self.key.clone(), params: clone_params(&self.params), source: self.source }
    }
}

impl Default for StageTag {
    fn default() -> (r: Self)
        ensures
            r@ == (TagModel { key: Seq::empty(), params: Map::empty(), source: TagSource::Extras }),
    {
        StageTag { key: String::new(), params: TagParams::new(), source: TagSource::Extras }
    }
}

/// What a [`StageTags`] holds.
pub struct StageTagsModel {
    pub tags: Seq<TagModel>,
    pub extras: Map<Seq<char>, ValueModel>,
    pub base_name: Seq<char>,
    pub name_params: Map<Seq<char>, ValueModel>,
}

/// Parsed metadata for one glTF node, produced once per node at load time.
///
/// Deliberately holds no policy: the loader records what it found, and
/// resolution decides what it means.
#[derive(Debug, PartialEq)]
pub struct StageTags {
    /// Tags named explicitly by the discriminator property.
    pub tags: Vec<StageTag>,
    /// Every property found in the node's `extras`, parsed but uninterpreted.
    pub extras: TagParams,
    /// The node name with Blender's `.001` duplicate suffix and any inline
    /// parameter block removed.
    pub base_name: String,
    /// Parameters parsed out of an inline `Name[key=value]` block.
    pub name_params: TagParams,
}

impl View for StageTags {
    type V = StageTagsModel;

    open spec fn view(&self) -> StageTagsModel {
        StageTagsModel {
            tags: tags_model(self.tags@),
            extras: self.extras@,
            base_name: self.base_name@,
            name_params: self.name_params@,
        }
    }
}

impl Clone for StageTags {
    fn clone(&self) -> (r: Self)
        ensures
            r@ == self@,
    {
        let mut tags: Vec<StageTag> = Vec::new();
        let mut i: usize = 0;
        while i < self.tags.len()
            invariant
                i <= self.tags@.len(),
                tags_model(tags@) == tags_model(self.tags@).take(i as int),
            decreases self.tags@.len() - i,
        {
            let ghost before = tags@;
            tags.push(self.tags[i].clone());
            assert(tags_model(tags@) =~= tags_model(before).push(self.tags@[i as int]@));
            assert(tags_model(tags@) =~= tags_model(self.tags@).take(i + 1));
            i = i + 1;
        }
        assert(tags_model(self.tags@).take(i as int) =~= tags_model(self.tags@));
        StageTags {
            tags,
            extras: clone_params(&self.extras),
            base_name: self.base_name.clone(),
            name_params: clone_params(&self.name_params),
        }
    }
}

impl Default for StageTags {
    fn default() -> (r: Self)
        ensures
            r@.tags.len() == 0,
            r@.extras == Map::<Seq<char>, ValueModel>::empty(),
            r@.base_name.len() == 0,
            r@.name_params == Map::<Seq<char>, ValueModel>::empty(),
    {
        StageTags {
            tags: Vec::new(),
            extras: TagParams::new(),
            base_name: String::new(),
            name_params: TagParams::new(),
        }
    }
}

impl StageTags {
    /// Whether this node carried no metadata of any kind.
    pub fn is_empty(&self) -> (r: bool)
        ensures
            r == (self@.tags.len() == 0 && self@.extras.len() == 0 && self@.name_params.len() == 0),
    {
        self.tags.len() == 0 && self.extras.is_empty() && self.name_params.is_empty()
    }

    /// The first tag with the given key, if any.
    pub fn tag(&self, key: &str) -> (r: Option<&StageTag>)
        ensures
            match r {
                Some(t) => exists|i: int|
                    0 <= i < self.tags@.len() && self.tags@[i] == *t && t.key@ == key@ && forall|j: int|
                        0 <= j < i ==> #[trigger] self.tags@[j].key@ != key@,
                None => forall|j: int| 0 <= j < self.tags@.len() ==> #[trigger] self.tags@[j].key@ != key@,
            },
    {
        let mut i: usize = 0;
        while i < self.tags.len()
            invariant
                i <= self.tags@.len(),
                forall|j: int| 0 <= j < i ==> #[trigger] self.tags@[j].key@ != key@,
            decreases self.tags@.len() - i,
        {
            if same_text(self.tags[i].key.as_str(), key) {
                return Some(&self.tags[i]);
            }
            i = i + 1;
        }
        None
    }
}

} // verus!
