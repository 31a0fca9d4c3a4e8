//! What the game says its tags mean, and matching nodes against it.

use vstd::prelude::*;

use crate::tag::component::{tags_model, StageTag, StageTags, StageTagsModel, TagModel, TagSource};
use crate::tag::value::{clone_params, normalize, normalize_key, NormalizedMap, ValueModel};
use crate::text::TextSet;

verus! {

/// What a [`RegisteredTag`] holds.
pub struct RegisteredModel {
    pub key: Seq<char>,
    pub inserts_component: bool,
}

/// One registered tag.
#[derive(Debug)]
pub struct RegisteredTag {
    /// The canonical spelling, as the game registered it.
    pub key: String,
    /// Whether the tag inserts a component built from its parameters, as
    /// opposed to being a marker.
    pub inserts_component: bool,
}

impl View for RegisteredTag {
    type V = RegisteredModel;

    open spec fn view(&self) -> RegisteredModel {
        RegisteredModel { key: self.key@, inserts_component: self.inserts_component }
    }
}

/// The set of tags the game understands.
///
/// Lookups ignore casing and separators (see [`normalize_key`]), so a tag
/// registered as `spawn_point` is found by a Blender object named
/// `SpawnPoint`.
#[derive(Debug)]
pub struct StageTagRegistry {
    entries: NormalizedMap<RegisteredTag>,
}

impl View for StageTagRegistry {
    type V = Map<Seq<char>, RegisteredModel>;

    closed spec fn view(&self) -> Map<Seq<char>, RegisteredModel> {
        self.entries@.map_values(|t: RegisteredTag| t@)
    }
}

impl StageTagRegistry {
    #[verifier::type_invariant]
    spec fn consistent(self) -> bool {
        canonical(self@)
    }

    /// A registry with nothing registered.
    pub fn new() -> (r: Self)
        ensures
            r@ == Map::<Seq<char>, RegisteredModel>::empty(),
    {
        let r = StageTagRegistry { entries: NormalizedMap::new() };
        assert(r@ =~= Map::<Seq<char>, RegisteredModel>::empty());
        r
    }

    /// Register a tag that inserts a component built from the tag's
    /// parameters; a later registration of any spelling replaces an earlier one.
    pub fn register(&mut self, key: &str)
        ensures
            final(self)@ == old(self)@.insert(
                normalize(key@),
                RegisteredModel { key: key@, inserts_component: true },
            ),
    {
        proof {
            use_type_invariant(&*self);
        }
        let ghost before = self@;
        let mut entries = NormalizedMap::new();
        std::mem::swap(&mut entries, &mut self.entries);
        entries.insert(key, RegisteredTag { key: key.to_owned(), inserts_component: true });
        proof {
            let added = RegisteredModel { key: key@, inserts_component: true };
            assert(entries@.map_values(|t: RegisteredTag| t@) =~= before.insert(normalize(key@), added));
        }
        self.entries = entries;
        assert(self@ =~= old(self)@.insert(
            normalize(key@),
            RegisteredModel { key: key@, inserts_component: true },
        ));
    }

    /// Register a tag that carries no component of its own.
    pub fn register_marker(&mut self, key: &str)
        ensures
            final(self)@ == old(self)@.insert(
                normalize(key@),
                RegisteredModel { key: key@, inserts_component: false },
            ),
    {
        proof {
            use_type_invariant(&*self);
        }
        let ghost before = self@;
        let mut entries = NormalizedMap::new();
        std::mem::swap(&mut entries, &mut self.entries);
        entries.insert(key, RegisteredTag { key: key.to_owned(), inserts_component: false });
        proof {
            let added = RegisteredModel { key: key@, inserts_component: false };
            assert(entries@.map_values(|t: RegisteredTag| t@) =~= before.insert(normalize(key@), added));
        }
        self.entries = entries;
        assert(self@ =~= old(self)@.insert(
            normalize(key@),
            RegisteredModel { key: key@, inserts_component: false },
        ));
    }

    /// The normalized names of every registered tag, which the loader uses
    /// to tell whether a node's name alone is worth recording.
    pub fn known_names(&self) -> (r: TextSet)
        ensures
            r@ == self@.dom(),
    {
        let entries = self.entries.iter();
        let mut names = TextSet::new();
        let mut i: usize = 0;
        while i < entries.len()
            invariant
                i <= entries@.len(),
                entries@.len() == self.entries@.len(),
                forall|j: int| 0 <= j < entries@.len() ==> self.entries@.contains_key(#[trigger] entries@[j].0@)
                    && self.entries@[entries@[j].0@] == entries@[j].1,
                forall|a: int, b: int| 0 <= a < b < entries@.len() ==> #[trigger] entries@[a].0@ != #[trigger] entries@[b].0@,
                forall|k: Seq<char>| names@.contains(k) <==> exists|j: int| 0 <= j < i && #[trigger] entries@[j].0@ == k,
            decreases entries@.len() - i,
        {
            names.insert(entries[i].0.clone());
            proof {
                assert forall|k: Seq<char>| names@.contains(k) implies exists|j: int|
                    0 <= j < i + 1 && #[trigger] entries@[j].0@ == k by {
                    if k != entries@[i as int].0@ {
                        let j = choose|j: int| 0 <= j < i && #[trigger] entries@[j].0@ == k;
                    }
                }
            }
            i = i + 1;
        }
        proof {
            let keys = Set::new(|k: Seq<char>| exists|j: int| 0 <= j < entries@.len() && #[trigger] entries@[j].0@ == k);
            assert(keys.subset_of(self.entries@.dom()));
            assert(names@ =~= keys);
            lemma_distinct_listing_is_domain(entries@, self.entries@);
            assert(names@ =~= self@.dom());
        }
        names
    }

    /// Look up a tag by any spelling.
    pub fn get(&self, key: &str) -> (r: Option<&RegisteredTag>)
        ensures
            match r {
                Some(t) => self@.contains_key(normalize(key@)) && t@ == self@[normalize(key@)],
                None => !self@.contains_key(normalize(key@)),
            },
    {
        self.entries.get(key)
    }

    /// Whether any spelling of `key` is registered.
    pub fn contains(&self, key: &str) -> (r: bool)
        ensures
            r == self@.contains_key(normalize(key@)),
    {
        self.entries.contains(key)
    }

    /// Whether nothing has been registered.
    pub fn is_empty(&self) -> (r: bool)
        ensures
            r == (self@.len() == 0),
    {
        assert(self@.dom() =~= self.entries@.dom());
        self.entries.is_empty()
    }
}

/// The outcome of matching a node's baked metadata against the registry.
#[derive(Debug, PartialEq)]
pub struct ResolvedTags {
    /// Tags that matched a registered entry, canonically spelled and
    /// deduplicated, highest-precedence source winning.
    pub tags: Vec<StageTag>,
    /// Tag names the node asked for that nothing is registered under.
    pub unknown: Vec<String>,
}

impl Default for ResolvedTags {
    fn default() -> (r: Self)
        ensures
            r.tags@.len() == 0,
            r.unknown@.len() == 0,
    {
        ResolvedTags { tags: Vec::new(), unknown: Vec::new() }
    }
}

/// The state of resolution after the discriminator's tags: the resolved
/// tags, the normalized names already applied, and the unknown names.
pub struct ResolutionModel {
    pub tags: Seq<TagModel>,
    pub seen: Set<Seq<char>>,
    pub unknown: Seq<Seq<char>>,
}

/// Resolve the discriminator's tags in order: an unregistered name is
/// unknown; a registered one is applied once, under the registered spelling,
/// as an `Extras` tag.
pub open spec fn resolve_explicit(
    tags: Seq<TagModel>,
    reg: Map<Seq<char>, RegisteredModel>,
) -> ResolutionModel
    decreases tags.len(),
{
    if tags.len() == 0 {
        ResolutionModel { tags: Seq::empty(), seen: Set::empty(), unknown: Seq::empty() }
    } else {
        let prev = resolve_explicit(tags.drop_last(), reg);
        let t = tags.last();
        let n = normalize(t.key);
        if !reg.contains_key(n) {
            ResolutionModel { unknown: prev.unknown.push(t.key), ..prev }
        } else if prev.seen.contains(n) {
            prev
        } else {
            ResolutionModel {
                tags: prev.tags.push(
                    TagModel { key: reg[n].key, params: t.params, source: TagSource::Extras },
                ),
                seen: prev.seen.insert(n),
                ..prev
            }
        }
    }
}

/// What [`resolve_tags`] gives: the discriminator's tags resolved first,
/// then the node's name, which only counts when it names a registered tag
/// not already applied (and is never reported as unknown).
pub open spec fn spec_resolve(tags: StageTagsModel, reg: Map<Seq<char>, RegisteredModel>) -> (
    Seq<TagModel>,
    Seq<Seq<char>>,
) {
    let r = resolve_explicit(tags.tags, reg);
    let n = normalize(tags.base_name);
    if reg.contains_key(n) && !r.seen.contains(n) {
        (
            r.tags.push(TagModel { key: reg[n].key, params: tags.name_params, source: TagSource::Name }),
            r.unknown,
        )
    } else {
        (r.tags, r.unknown)
    }
}

/// Match a node's baked metadata against the registry.
///
/// The discriminator is the explicit channel, so it wins over the name. The
/// reflection channel is resolved separately, because it needs the type
/// registry.
pub fn resolve_tags(tags: &StageTags, registry: &StageTagRegistry) -> (r: ResolvedTags)
    ensures
        canonical(registry@),
        (tags_model(r.tags@), r.unknown@.map_values(|u: String| u@)) == spec_resolve(
            tags@,
            registry@,
        ),
{
    proof {
        use_type_invariant(registry);
    }
    let mut resolved: Vec<StageTag> = Vec::new();
    let mut seen = TextSet::new();
    let mut unknown: Vec<String> = Vec::new();
    let mut i: usize = 0;
    while i < tags.tags.len()
        invariant
            i <= tags.tags@.len(),
            ({
                let m = resolve_explicit(tags_model(tags.tags@).take(i as int), registry@);
                &&& tags_model(resolved@) == m.tags
                &&& seen@ == m.seen
                &&& unknown@.map_values(|u: String| u@) == m.unknown
            }),
        decreases tags.tags@.len() - i,
    {
        let ghost before = tags_model(tags.tags@).take(i as int);
        assert(tags_model(tags.tags@).take(i + 1).drop_last() =~= before);
        assert(tags_model(tags.tags@).take(i + 1).last() == tags.tags@[i as int]@);
        let tag = &tags.tags[i];
        match registry.get(tag.key.as_str()) {
            None => {
                let ghost old_unknown = unknown@;
                unknown.push(tag.key.clone());
                assert(unknown@.map_values(|u: String| u@) =~= old_unknown.map_values(
                    |u: String| u@,
                ).push(tag.key@));
            },
            Some(entry) => {
                let n = normalize_key(tag.key.as_str());
                let ghost old_resolved = resolved@;
                if seen.insert(n) {
                    resolved.push(
                        StageTag {
                            key: entry.key.clone(),
                            params: clone_params(&tag.params),
                            source: TagSource::Extras,
                        },
                    );
                    assert(tags_model(resolved@) =~= tags_model(old_resolved).push(
                        resolved@.last()@,
                    ));
                }
            },
        }
        i = i + 1;
    }
    assert(tags_model(tags.tags@).take(tags.tags@.len() as int) =~= tags_model(tags.tags@));
    let ghost before_name = resolved@;
    if let Some(entry) = registry.get(tags.base_name.as_str()) {
        let n = normalize_key(tags.base_name.as_str());
        if seen.insert(n) {
            resolved.push(
                StageTag {
                    key: entry.key.clone(),
                    params: clone_params(&tags.name_params),
                    source: TagSource::Name,
                },
            );
            assert(tags_model(resolved@) =~= tags_model(before_name).push(resolved@.last()@));
        }
    }
    ResolvedTags { tags: resolved, unknown }
}

/// Every registered entry is filed under the normal form of its own
/// spelling.
pub open spec fn canonical(reg: Map<Seq<char>, RegisteredModel>) -> bool {
    forall|n: Seq<char>| #[trigger] reg.contains_key(n) ==> normalize(reg[n].key) == n
}

/// The discriminator's tag names that nothing is registered under, in order.
pub open spec fn unregistered_names(tags: Seq<TagModel>, reg: Map<Seq<char>, RegisteredModel>) -> Seq<
    Seq<char>,
>
    decreases tags.len(),
{
    if tags.len() == 0 {
        Seq::empty()
    } else {
        let prev = unregistered_names(tags.drop_last(), reg);
        if reg.contains_key(normalize(tags.last().key)) {
            prev
        } else {
            prev.push(tags.last().key)
        }
    }
}

proof fn lemma_resolve_explicit(tags: Seq<TagModel>, reg: Map<Seq<char>, RegisteredModel>)
    requires
        canonical(reg),
    ensures
        resolve_explicit(tags, reg).unknown == unregistered_names(tags, reg),
        forall|i: int|
            0 <= i < resolve_explicit(tags, reg).tags.len() ==> reg.contains_key(
                normalize(#[trigger] resolve_explicit(tags, reg).tags[i].key),
            ),
        forall|i: int|
            0 <= i < resolve_explicit(tags, reg).tags.len() ==> #[trigger] resolve_explicit(
                tags,
                reg,
            ).tags[i].key == reg[normalize(resolve_explicit(tags, reg).tags[i].key)].key,
        forall|i: int|
            0 <= i < resolve_explicit(tags, reg).tags.len() ==> #[trigger] resolve_explicit(
                tags,
                reg,
            ).tags[i].source == TagSource::Extras,
        forall|i: int|
            0 <= i < resolve_explicit(tags, reg).tags.len() ==> resolve_explicit(tags, reg).seen.contains(
                normalize(#[trigger] resolve_explicit(tags, reg).tags[i].key),
            ),
        forall|a: int, b: int|
            0 <= a < b < resolve_explicit(tags, reg).tags.len() ==> normalize(
                #[trigger] resolve_explicit(tags, reg).tags[a].key,
            ) != normalize(#[trigger] resolve_explicit(tags, reg).tags[b].key),
        forall|n: Seq<char>|
            #[trigger] resolve_explicit(tags, reg).seen.contains(n) ==> exists|i: int|
                0 <= i < resolve_explicit(tags, reg).tags.len() && normalize(
                    #[trigger] resolve_explicit(tags, reg).tags[i].key,
                ) == n,
        forall|j: int|
            0 <= j < tags.len() && reg.contains_key(normalize(#[trigger] tags[j].key))
                ==> resolve_explicit(tags, reg).seen.contains(normalize(tags[j].key)),
    decreases tags.len(),
{
    if tags.len() > 0 {
        let prev_tags = tags.drop_last();
        lemma_resolve_explicit(prev_tags, reg);
        let prev = resolve_explicit(prev_tags, reg);
        let r = resolve_explicit(tags, reg);
        let t = tags.last();
        let n = normalize(t.key);
        assert forall|j: int|
            0 <= j < tags.len() && reg.contains_key(normalize(#[trigger] tags[j].key)) implies r.seen.contains(
            normalize(tags[j].key),
        ) by {
            if j < tags.len() - 1 {
                assert(tags[j] == prev_tags[j]);
            }
        }
        if reg.contains_key(n) && !prev.seen.contains(n) {
            let added = TagModel { key: reg[n].key, params: t.params, source: TagSource::Extras };
            assert(normalize(added.key) == n);
            assert forall|i: int| 0 <= i < r.tags.len() implies {
                &&& reg.contains_key(normalize(#[trigger] r.tags[i].key))
                &&& r.tags[i].key == reg[normalize(r.tags[i].key)].key
                &&& r.tags[i].source == TagSource::Extras
                &&& r.seen.contains(normalize(r.tags[i].key))
            } by {
                if i < prev.tags.len() {
                    assert(r.tags[i] == prev.tags[i]);
                    assert(reg.contains_key(normalize(prev.tags[i].key)));
                    assert(prev.seen.contains(normalize(prev.tags[i].key)));
                } else {
                    assert(r.tags[i] == added);
                    assert(normalize(r.tags[i].key) == n);
                    assert(r.seen.contains(n));
                }
            }
            assert forall|a: int, b: int| 0 <= a < b < r.tags.len() implies normalize(
                #[trigger] r.tags[a].key,
            ) != normalize(#[trigger] r.tags[b].key) by {
                assert(r.tags[a] == prev.tags[a]);
                if b < prev.tags.len() {
                    assert(r.tags[b] == prev.tags[b]);
                }
            }
            assert forall|m: Seq<char>| #[trigger] r.seen.contains(m) implies exists|i: int|
                0 <= i < r.tags.len() && normalize(#[trigger] r.tags[i].key) == m by {
                if m == n {
                    assert(normalize(r.tags[prev.tags.len() as int].key) == m);
                } else {
                    let i = choose|i: int| 0 <= i < prev.tags.len() && normalize(#[trigger] prev.tags[i].key) == m;
                    assert(r.tags[i] == prev.tags[i]);
                }
            }
        } else {
            assert(r.tags == prev.tags && r.seen == prev.seen);
            assert forall|i: int| 0 <= i < r.tags.len() implies {
                &&& reg.contains_key(normalize(#[trigger] r.tags[i].key))
                &&& r.tags[i].key == reg[normalize(r.tags[i].key)].key
                &&& r.tags[i].source == TagSource::Extras
                &&& r.seen.contains(normalize(r.tags[i].key))
            } by {
                assert(reg.contains_key(normalize(prev.tags[i].key)));
            }
        }
    }
}

/// The laws of resolution: each registered tag is applied at most once;
/// resolved tags carry the spelling the game registered; the explicit
/// channel outranks the name, so a node tagged both ways gets the explicit
/// tag; and the unknown names are exactly the discriminator's names that
/// nothing is registered under, so a node's name is never reported.
pub proof fn law_resolution(tags: StageTagsModel, reg: Map<Seq<char>, RegisteredModel>)
    requires
        canonical(reg),
    ensures
        ({
            let (res, unknown) = spec_resolve(tags, reg);
            &&& forall|a: int, b: int|
                0 <= a < b < res.len() ==> normalize(#[trigger] res[a].key) != normalize(
                    #[trigger] res[b].key,
                )
            &&& forall|i: int|
                0 <= i < res.len() ==> reg.contains_key(normalize(#[trigger] res[i].key))
                    && res[i].key == reg[normalize(res[i].key)].key
            &&& (exists|j: int|
                0 <= j < tags.tags.len() && normalize(#[trigger] tags.tags[j].key) == normalize(
                    tags.base_name,
                )) ==> forall|i: int| 0 <= i < res.len() ==> #[trigger] res[i].source
                == TagSource::Extras
            &&& unknown == unregistered_names(tags.tags, reg)
        }),
{
    lemma_resolve_explicit(tags.tags, reg);
    let r = resolve_explicit(tags.tags, reg);
    let n = normalize(tags.base_name);
    let (res, unknown) = spec_resolve(tags, reg);
    if exists|j: int|
        0 <= j < tags.tags.len() && normalize(#[trigger] tags.tags[j].key) == normalize(
            tags.base_name,
        ) {
        let j = choose|j: int|
            0 <= j < tags.tags.len() && normalize(#[trigger] tags.tags[j].key) == normalize(
                tags.base_name,
            );
        if reg.contains_key(n) {
            assert(r.seen.contains(normalize(tags.tags[j].key)));
        }
        assert(res == r.tags);
        assert forall|i: int| 0 <= i < res.len() implies #[trigger] res[i].source
            == TagSource::Extras by {
            assert(reg.contains_key(normalize(r.tags[i].key)));
        }
    }
    if !(reg.contains_key(n) && !r.seen.contains(n)) {
        assert(res == r.tags);
        assert forall|i: int| 0 <= i < res.len() implies reg.contains_key(normalize(#[trigger] res[i].key))
            && res[i].key == reg[normalize(res[i].key)].key by {
            assert(reg.contains_key(normalize(r.tags[i].key)));
        }
    }
    if reg.contains_key(n) && !r.seen.contains(n) {
        assert(normalize(reg[n].key) == n);
        assert forall|a: int, b: int| 0 <= a < b < res.len() implies normalize(#[trigger] res[a].key)
            != normalize(#[trigger] res[b].key) by {
            assert(res[a] == r.tags[a]);
            if b < r.tags.len() {
                assert(res[b] == r.tags[b]);
            } else {
                assert(r.seen.contains(normalize(r.tags[a].key)));
            }
        }
        assert forall|i: int| 0 <= i < res.len() implies reg.contains_key(normalize(#[trigger] res[i].key))
            && res[i].key == reg[normalize(res[i].key)].key by {
            if i < r.tags.len() {
                assert(res[i] == r.tags[i]);
            }
        }
        if exists|j: int|
            0 <= j < tags.tags.len() && normalize(#[trigger] tags.tags[j].key) == normalize(
                tags.base_name,
            ) {
            let j = choose|j: int|
                0 <= j < tags.tags.len() && normalize(#[trigger] tags.tags[j].key) == normalize(
                    tags.base_name,
                );
            assert(r.seen.contains(normalize(tags.tags[j].key)));
        }
    }
}

/// A node's spelling does not matter: two nodes alike but for names that
/// normalize the same (`SpawnPoint`, `spawn_point`, `Spawn Point`) resolve
/// alike; and a node with no explicit tags whose name matches a registered
/// tag gets exactly that tag, under the registered spelling, with its inline
/// parameters, and nothing reported unknown.
pub proof fn law_spelling_does_not_matter(
    tags: StageTagsModel,
    other_name: Seq<char>,
    reg: Map<Seq<char>, RegisteredModel>,
)
    ensures
        normalize(other_name) == normalize(tags.base_name) ==> spec_resolve(
            StageTagsModel { base_name: other_name, ..tags },
            reg,
        ) == spec_resolve(tags, reg),
        tags.tags.len() == 0 && reg.contains_key(normalize(tags.base_name)) ==> spec_resolve(tags, reg)
            == (
            seq![
                TagModel {
                    key: reg[normalize(tags.base_name)].key,
                    params: tags.name_params,
                    source: TagSource::Name,
                },
            ],
            Seq::<Seq<char>>::empty(),
        ),
{
    if tags.tags.len() == 0 {
        let r = resolve_explicit(tags.tags, reg);
        assert(r.tags =~= Seq::<TagModel>::empty());
        assert(r.seen =~= Set::<Seq<char>>::empty());
        assert(Seq::<TagModel>::empty().push(
            TagModel {
                key: reg[normalize(tags.base_name)].key,
                params: tags.name_params,
                source: TagSource::Name,
            },
        ) =~= seq![
            TagModel {
                key: reg[normalize(tags.base_name)].key,
                params: tags.name_params,
                source: TagSource::Name,
            },
        ]);
    }
}

/// A listing of a finite map's entries, without repeated keys and of the
/// map's size, names every key of the map.
proof fn lemma_distinct_listing_is_domain<V>(listing: Seq<(String, V)>, m: Map<Seq<char>, V>)
    requires
        m.dom().finite(),
        listing.len() == m.len(),
        forall|j: int| 0 <= j < listing.len() ==> m.contains_key(#[trigger] listing[j].0@),
        forall|a: int, b: int| 0 <= a < b < listing.len() ==> #[trigger] listing[a].0@ != #[trigger] listing[b].0@,
    ensures
        forall|k: Seq<char>| m.contains_key(k) ==> exists|j: int| 0 <= j < listing.len() && #[trigger] listing[j].0@ == k,
{
    let keys = listing.map_values(|e: (String, V)| e.0@);
    assert forall|a: int, b: int| 0 <= a < keys.len() && 0 <= b < keys.len() && a != b implies keys[a] != keys[b] by {
        if a < b {
            assert(listing[a].0@ != listing[b].0@);
        } else {
            assert(listing[b].0@ != listing[a].0@);
        }
    }
    keys.unique_seq_to_set();
    assert(keys.to_set().subset_of(m.dom()));
    vstd::set_lib::lemma_subset_equality(keys.to_set(), m.dom());
    assert forall|k: Seq<char>| m.contains_key(k) implies exists|j: int| 0 <= j < listing.len() && #[trigger] listing[j].0@ == k by {
        assert(keys.to_set().contains(k));
        let j = choose|j: int| 0 <= j < keys.len() && keys[j] == k;
        assert(listing[j].0@ == k);
    }
}

} // verus!
