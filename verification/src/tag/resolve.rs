//! Turning baked metadata into live components: the work queue, the record
//! of unknown names, and the properties the reflection channel considers.

use vstd::prelude::*;

use crate::tag::component::{StageTag, StageTags, TagModel, TagSource};
use crate::tag::component::StageTagsModel;
use crate::tag::registry::{
    law_resolution, resolve_tags, unregistered_names, RegisteredModel, ResolvedTags, StageTagRegistry,
};
use crate::tag::value::{clone_params, TagParams};
use crate::tag::value::ValueModel;
use crate::text::{key_lt, same_text, texts_of};
use bevy::platform::collections::HashSet;

verus! {

/// Nodes whose baked metadata has not been resolved yet.
///
/// Resolution is queued rather than done inline so that a large level
/// spawning in one frame does not have to resolve every node in that frame.
#[derive(Debug)]
pub struct StageTagQueue<T> {
    pending: Vec<T>,
}

impl<T> View for StageTagQueue<T> {
    type V = Seq<T>;

    closed spec fn view(&self) -> Seq<T> {
        self.pending@
    }
}

impl<T> StageTagQueue<T> {
    /// An empty queue.
    pub fn new() -> (r: Self)
        ensures
            r@ == Seq::<T>::empty(),
    {
        StageTagQueue { pending: Vec::new() }
    }

    /// Queue a node for resolution.
    pub fn push(&mut self, entity: T)
        ensures
            final(self)@ == old(self)@.push(entity),
    {
        self.pending.push(entity);
    }

    /// Take up to `budget` nodes, or all of them when `budget` is zero. The
    /// most recently queued nodes are taken; the rest stay queued, in order.
    pub fn take(&mut self, budget: usize) -> (r: Vec<T>)
        ensures
            final(self)@ + r@ == old(self)@,
            (budget == 0 || budget >= old(self)@.len()) ==> r@ == old(self)@,
            (budget != 0 && budget < old(self)@.len()) ==> r@.len() == budget,
    {
        if budget == 0 || budget >= self.pending.len() {
            let mut all: Vec<T> = Vec::new();
            std::mem::swap(&mut all, &mut self.pending);
            assert(self.pending@ + all@ =~= all@);
            return all;
        }
        let at = self.pending.len() - budget;
        let r = self.pending.split_off(at);
        assert(self.pending@ + r@ =~= old(self)@);
        r
    }

    /// How many nodes are still waiting.
    pub fn len(&self) -> (r: usize)
        ensures
            r == self@.len(),
    {
        self.pending.len()
    }

    /// Whether the queue is empty.
    pub fn is_empty(&self) -> (r: bool)
        ensures
            r == (self@.len() == 0),
    {
        self.pending.len() == 0
    }
}

/// Bevy's hash set, held as an opaque value.
#[verifier::external_type_specification]
#[verifier::external_body]
#[verifier::reject_recursive_types(T)]
#[verifier::reject_recursive_types(S)]
pub struct ExHashSet<T, S>(bevy::platform::collections::HashSet<T, S>);

/// The hasher Bevy's hash set uses by default, held as an opaque value.
#[verifier::external_type_specification]
#[verifier::external_body]
pub struct ExFixedHasher(bevy::platform::hash::FixedHasher);

/// The texts a set of names holds.
pub uninterp spec fn name_set(s: HashSet<String>) -> Set<Seq<char>>;

/// `HashSet::new` (bevy's platform collections): a set holding nothing.
#[verifier::external_body]
fn names_new() -> (r: HashSet<String>)
    ensures
        name_set(r) == Set::<Seq<char>>::empty(),
{
    HashSet::new()
}

/// `HashSet::insert`: the set afterwards holds `name` as well, and the call
/// answers true exactly when it did not hold it before.
#[verifier::external_body]
fn names_insert(s: &mut HashSet<String>, name: String) -> (r: bool)
    ensures
        r == !name_set(*old(s)).contains(name@),
        name_set(*final(s)) == name_set(*old(s)).insert(name@),
{
    s.insert(name)
}

/// `HashSet::iter`, each member cloned out: every member once, in an order
/// the set does not fix.
#[verifier::external_body]
fn names_listed(s: &HashSet<String>) -> (r: Vec<String>)
    ensures
        texts_of(r@).to_set() == name_set(*s),
        texts_of(r@).no_duplicates(),
{
    s.iter().cloned().collect()
}

/// Tag names seen in levels that nothing is registered under, kept so each
/// typo is reported once rather than once per node per spawn.
#[derive(Debug)]
pub struct UnknownTags {
    seen: HashSet<String>,
}

impl View for UnknownTags {
    type V = Set<Seq<char>>;

    closed spec fn view(&self) -> Set<Seq<char>> {
        name_set(self.seen)
    }
}

impl UnknownTags {
    /// Nothing seen yet.
    pub fn new() -> (r: Self)
        ensures
            r@ == Set::<Seq<char>>::empty(),
    {
        UnknownTags { seen: names_new() }
    }

    /// Note an unregistered name; true the first time it is seen, which is
    /// the one time it is worth reporting.
    pub fn record(&mut self, key: String) -> (r: bool)
        ensures
            r == !old(self)@.contains(key@),
            final(self)@ == old(self)@.insert(key@),
    {
        names_insert(&mut self.seen, key)
    }

    /// Every unregistered tag name seen so far, each once, in no fixed
    /// order.
    pub fn iter(&self) -> (r: Vec<String>)
        ensures
            texts_of(r@).to_set() == self@,
            texts_of(r@).no_duplicates(),
    {
        names_listed(&self.seen)
    }
}

/// The `extras` properties the reflection channel considers: every property
/// other than the discriminator whose value is a string (the RON literal a
/// reflected component is read from), in key order.
pub fn reflected_properties(tags: &StageTags, discriminator: &str) -> (r: Vec<(String, String)>)
    ensures
        forall|i: int, j: int| 0 <= i < j < r@.len() ==> key_lt(#[trigger] r@[i].0@, #[trigger] r@[j].0@),
        forall|i: int|
            0 <= i < r@.len() ==> #[trigger] r@[i].0@ != discriminator@ && tags@.extras.contains_key(
                r@[i].0@,
            ) && tags@.extras[r@[i].0@] == ValueModel::Text(r@[i].1@),
        forall|k: Seq<char>|
            k != discriminator@ && tags@.extras.contains_key(k) && tags@.extras[k] is Text ==> exists|i: int|
                0 <= i < r@.len() && #[trigger] r@[i].0@ == k,
{
    let entries = tags.extras.iter();
    let mut out: Vec<(String, String)> = Vec::new();
    let mut i: usize = 0;
    while i < entries.len()
        invariant
            i <= entries@.len(),
            entries@.len() == tags@.extras.len(),
            forall|a: int, b: int| 0 <= a < b < entries@.len() ==> key_lt(#[trigger] entries@[a].0@, #[trigger] entries@[b].0@),
            forall|a: int| 0 <= a < entries@.len() ==> tags@.extras.contains_key(#[trigger] entries@[a].0@)
                && tags@.extras[entries@[a].0@] == entries@[a].1@,
            forall|a: int| 0 <= a < out@.len() ==> exists|b: int| 0 <= b < i && #[trigger] out@[a].0@ == entries@[b].0@,
            forall|a: int, b: int| 0 <= a < b < out@.len() ==> key_lt(#[trigger] out@[a].0@, #[trigger] out@[b].0@),
            forall|a: int|
                0 <= a < out@.len() ==> #[trigger] out@[a].0@ != discriminator@ && tags@.extras.contains_key(
                    out@[a].0@,
                ) && tags@.extras[out@[a].0@] == ValueModel::Text(out@[a].1@),
            forall|b: int|
                0 <= b < i && entries@[b].0@ != discriminator@ && #[trigger] entries@[b].1@ is Text ==> exists|a: int|
                    0 <= a < out@.len() && #[trigger] out@[a].0@ == entries@[b].0@,
        decreases entries@.len() - i,
    {
        let key = &entries[i].0;
        if !same_text(key.as_str(), discriminator) {
            if let Some(text) = entries[i].1.as_str() {
                let ghost before = out@;
                out.push((key.clone(), text.to_owned()));
                proof {
                    assert forall|a: int, b: int| 0 <= a < b < out@.len() implies key_lt(
                        #[trigger] out@[a].0@,
                        #[trigger] out@[b].0@,
                    ) by {
                        if b == out@.len() - 1 {
                            assert(out@[a] == before[a]);
                            let c = choose|c: int| 0 <= c < i && #[trigger] before[a].0@ == entries@[c].0@;
                            assert(key_lt(entries@[c].0@, entries@[i as int].0@));
                        } else {
                            assert(out@[a] == before[a] && out@[b] == before[b]);
                        }
                    }
                    assert forall|a: int| 0 <= a < out@.len() implies exists|b: int|
                        0 <= b < i + 1 && #[trigger] out@[a].0@ == entries@[b].0@ by {
                        if a < out@.len() - 1 {
                            assert(out@[a] == before[a]);
                            let c = choose|c: int| 0 <= c < i && #[trigger] before[a].0@ == entries@[c].0@;
                        }
                    }
                    assert forall|b: int|
                        0 <= b < i + 1 && entries@[b].0@ != discriminator@ && #[trigger] entries@[b].1@ is Text implies exists|a: int|
                        0 <= a < out@.len() && #[trigger] out@[a].0@ == entries@[b].0@ by {
                        if b < i {
                            let a = choose|a: int| 0 <= a < before.len() && #[trigger] before[a].0@ == entries@[b].0@;
                            assert(out@[a] == before[a]);
                        } else {
                            assert(out@[out@.len() - 1].0@ == entries@[b].0@);
                        }
                    }
                }
            }
        }
        i = i + 1;
    }
    proof {
        assert forall|k: Seq<char>|
            k != discriminator@ && tags@.extras.contains_key(k) && tags@.extras[k] is Text implies exists|i: int|
            0 <= i < out@.len() && #[trigger] out@[i].0@ == k by {
            lemma_sorted_listing_covers(entries@, tags@.extras, k);
            let b = choose|b: int| 0 <= b < entries@.len() && #[trigger] entries@[b].0@ == k;
            assert(entries@[b].1@ is Text);
        }
    }
    out
}

/// A listing of a finite map without repeated keys, as long as the map,
/// names every key of the map.
proof fn lemma_sorted_listing_covers<T: View<V = ValueModel>>(
    listing: Seq<(String, T)>,
    m: Map<Seq<char>, ValueModel>,
    k: Seq<char>,
)
    requires
        m.dom().finite(),
        listing.len() == m.len(),
        forall|a: int| 0 <= a < listing.len() ==> m.contains_key(#[trigger] listing[a].0@),
        forall|a: int, b: int| 0 <= a < b < listing.len() ==> key_lt(#[trigger] listing[a].0@, #[trigger] listing[b].0@),
        m.contains_key(k),
    ensures
        exists|b: int| 0 <= b < listing.len() && #[trigger] listing[b].0@ == k,
{
    let keys = listing.map_values(|e: (String, T)| e.0@);
    assert forall|a: int, b: int| 0 <= a < keys.len() && 0 <= b < keys.len() && a != b implies keys[a] != keys[b] by {
        if a < b {
            crate::text::lemma_key_lt_asymmetric(listing[a].0@, listing[b].0@);
        } else {
            crate::text::lemma_key_lt_asymmetric(listing[b].0@, listing[a].0@);
        }
    }
    keys.unique_seq_to_set();
    assert(keys.to_set().subset_of(m.dom()));
    vstd::set_lib::lemma_subset_equality(keys.to_set(), m.dom());
    assert(keys.to_set().contains(k));
    let j = choose|j: int| 0 <= j < keys.len() && keys[j] == k;
    assert(listing[j].0@ == k);
}

/// Emitted for every tag resolved on a node, after the tag's own component
/// (if any) has been inserted. `E` is the entity the glTF loader created for
/// the node.
#[derive(Debug)]
pub struct StageTagFound<E> {
    /// The node's entity.
    pub entity: E,
    /// The tag's canonical name, as registered.
    pub key: String,
    /// The tag's parameters.
    pub params: TagParams,
    /// Which authoring channel the tag came from.
    pub source: TagSource,
}

impl<E> View for StageTagFound<E> {
    type V = (E, TagModel);

    open spec fn view(&self) -> (E, TagModel) {
        (self.entity, TagModel { key: self.key@, params: self.params@, source: self.source })
    }
}

/// The events for one node: first one per property the reflection channel
/// inserted a component from, in order, with no parameters; then one per
/// resolved tag, in order.
pub fn found_events<E: Copy>(entity: E, reflected: &[String], resolved: ResolvedTags) -> (r: Vec<
    StageTagFound<E>,
>)
    ensures
        r@.len() == reflected@.len() + resolved.tags@.len(),
        forall|i: int|
            0 <= i < reflected@.len() ==> #[trigger] r@[i]@ == (
                entity,
                TagModel { key: reflected@[i]@, params: Map::empty(), source: TagSource::Reflection },
            ),
        forall|i: int|
            0 <= i < resolved.tags@.len() ==> #[trigger] r@[reflected@.len() + i]@ == (
                entity,
                resolved.tags@[i]@,
            ),
{
    let mut events: Vec<StageTagFound<E>> = Vec::new();
    let mut i: usize = 0;
    while i < reflected.len()
        invariant
            i <= reflected@.len(),
            events@.len() == i,
            forall|j: int|
                0 <= j < i ==> #[trigger] events@[j]@ == (
                    entity,
                    TagModel { key: reflected@[j]@, params: Map::empty(), source: TagSource::Reflection },
                ),
        decreases reflected@.len() - i,
    {
        events.push(
            StageTagFound {
                entity,
                key: reflected[i].clone(),
                params: TagParams::new(),
                source: TagSource::Reflection,
            },
        );
        i = i + 1;
    }
    let tags = resolved.tags;
    let mut k: usize = 0;
    while k < tags.len()
        invariant
            k <= tags@.len(),
            events@.len() == reflected@.len() + k,
            forall|j: int|
                0 <= j < reflected@.len() ==> #[trigger] events@[j]@ == (
                    entity,
                    TagModel { key: reflected@[j]@, params: Map::empty(), source: TagSource::Reflection },
                ),
            forall|j: int| 0 <= j < k ==> #[trigger] events@[reflected@.len() + j]@ == (entity, tags@[j]@),
        decreases tags@.len() - k,
    {
        let tag = &tags[k];
        events.push(
            StageTagFound {
                entity,
                key: tag.key.clone(),
                params: clone_params(&tag.params),
                source: tag.source,
            },
        );
        assert(events@[reflected@.len() + k]@ == (entity, tags@[k as int]@));
        k = k + 1;
    }
    events
}

/// One step of resolving a node's tags, in the order the steps are carried
/// out.
#[derive(Debug)]
pub enum NodeAction {
    /// Insert the component a resolved tag maps to, built from its
    /// parameters.
    Apply(StageTag),
    /// Insert the reflected component an `extras` property names (the
    /// property's key), read from the RON text of its value.
    Reflect(String, String),
}

/// What an action does, in the model.
pub enum ActionModel {
    Apply(TagModel),
    Reflect(Seq<char>, Seq<char>),
}

impl View for NodeAction {
    type V = ActionModel;

    open spec fn view(&self) -> ActionModel {
        match self {
            NodeAction::Apply(t) => ActionModel::Apply(t@),
            NodeAction::Reflect(k, v) => ActionModel::Reflect(k@, v@),
        }
    }
}

/// The steps that resolve one node, in order: each resolved tag applied, in
/// the order resolution gives them (the explicit tags, then the name's),
/// then each reflected component inserted, in key order, for every `extras`
/// property other than the discriminator whose value is text. A component
/// inserted later replaces one inserted earlier, so a reflected component
/// wins over a custom property's tag, which wins over the name's.
pub fn node_actions(tags: &StageTags, resolved: &ResolvedTags, discriminator: &str) -> (r: Vec<
    NodeAction,
>)
    ensures
        r@.len() >= resolved.tags@.len(),
        forall|i: int| 0 <= i < resolved.tags@.len() ==> #[trigger] r@[i]@ == ActionModel::Apply(resolved.tags@[i]@),
        forall|i: int| resolved.tags@.len() <= i < r@.len() ==> #[trigger] r@[i]@ is Reflect,
        forall|i: int, j: int|
            resolved.tags@.len() <= i < j < r@.len() ==> key_lt(
                (#[trigger] r@[i]@)->Reflect_0,
                (#[trigger] r@[j]@)->Reflect_0,
            ),
        forall|i: int|
            resolved.tags@.len() <= i < r@.len() ==> ({
                let k = (#[trigger] r@[i]@)->Reflect_0;
                &&& k != discriminator@
                &&& tags@.extras.contains_key(k)
                &&& tags@.extras[k] == ValueModel::Text(r@[i]@->Reflect_1)
            }),
        forall|k: Seq<char>|
            k != discriminator@ && tags@.extras.contains_key(k) && tags@.extras[k] is Text ==> exists|i: int|
                resolved.tags@.len() <= i < r@.len() && (#[trigger] r@[i]@)->Reflect_0 == k,
{
    let mut actions: Vec<NodeAction> = Vec::new();
    let n = resolved.tags.len();
    let mut i: usize = 0;
    while i < n
        invariant
            n == resolved.tags@.len(),
            i <= n,
            actions@.len() == i,
            forall|j: int| 0 <= j < i ==> #[trigger] actions@[j]@ == ActionModel::Apply(resolved.tags@[j]@),
        decreases n - i,
    {
        actions.push(NodeAction::Apply(resolved.tags[i].clone()));
        i = i + 1;
    }
    let props = reflected_properties(tags, discriminator);
    let mut k: usize = 0;
    while k < props.len()
        invariant
            n == resolved.tags@.len(),
            k <= props@.len(),
            actions@.len() == n + k,
            forall|j: int| 0 <= j < n ==> #[trigger] actions@[j]@ == ActionModel::Apply(resolved.tags@[j]@),
            forall|j: int| 0 <= j < k ==> #[trigger] actions@[n + j]@ == ActionModel::Reflect(
                props@[j].0@,
                props@[j].1@,
            ),
        decreases props@.len() - k,
    {
        actions.push(NodeAction::Reflect(props[k].0.clone(), props[k].1.clone()));
        assert(actions@[n + k]@ == ActionModel::Reflect(props@[k as int].0@, props@[k as int].1@));
        k = k + 1;
    }
    proof {
        assert forall|i: int| n <= i < actions@.len() implies #[trigger] actions@[i]@ == ActionModel::Reflect(
            props@[i - n].0@,
            props@[i - n].1@,
        ) by {
            assert(actions@[n + (i - n)]@ == ActionModel::Reflect(props@[i - n].0@, props@[i - n].1@));
        }
        assert forall|k2: Seq<char>|
            k2 != discriminator@ && tags@.extras.contains_key(k2) && tags@.extras[k2] is Text implies exists|i: int|
            n <= i < actions@.len() && (#[trigger] actions@[i]@)->Reflect_0 == k2 by {
            let j = choose|j: int| 0 <= j < props@.len() && #[trigger] props@[j].0@ == k2;
            assert(actions@[n + j]@ == ActionModel::Reflect(props@[j].0@, props@[j].1@));
        }
        assert forall|a: int, b: int| n <= a < b < actions@.len() implies key_lt(
            (#[trigger] actions@[a]@)->Reflect_0,
            (#[trigger] actions@[b]@)->Reflect_0,
        ) by {
            assert(key_lt(props@[a - n].0@, props@[b - n].0@));
        }
    }
    actions
}

/// The metadata of a batch of nodes, `None` for a node no longer there.
pub open spec fn batch_view(batch: Seq<Option<StageTags>>) -> Seq<Option<StageTagsModel>> {
    batch.map_values(
        |o: Option<StageTags>|
            match o {
                Some(t) => Some(t@),
                None => None,
            },
    )
}

/// The names of a batch's explicit tags that nothing is registered under,
/// node by node, in order; a node no longer there contributes nothing, and
/// a node's own name never does.
pub open spec fn batch_unknown(batch: Seq<Option<StageTagsModel>>, reg: Map<Seq<char>, RegisteredModel>) -> Seq<
    Seq<char>,
>
    decreases batch.len(),
{
    if batch.len() == 0 {
        Seq::empty()
    } else {
        batch_unknown(batch.drop_last(), reg) + match batch.last() {
            Some(t) => unregistered_names(t.tags, reg),
            None => Seq::empty(),
        }
    }
}

/// The names of `s` that `seen` does not hold, in order of first
/// appearance, each once.
pub open spec fn newly_seen(s: Seq<Seq<char>>, seen: Set<Seq<char>>) -> Seq<Seq<char>>
    decreases s.len(),
{
    if s.len() == 0 {
        Seq::empty()
    } else if seen.contains(s.last()) || newly_seen(s.drop_last(), seen).contains(s.last()) {
        newly_seen(s.drop_last(), seen)
    } else {
        newly_seen(s.drop_last(), seen).push(s.last())
    }
}

/// The newly seen names are those of `s` not already seen, each once.
pub proof fn lemma_newly_seen(s: Seq<Seq<char>>, seen: Set<Seq<char>>)
    ensures
        forall|x: Seq<char>| #[trigger] newly_seen(s, seen).contains(x) <==> s.contains(x) && !seen.contains(x),
        newly_seen(s, seen).no_duplicates(),
    decreases s.len(),
{
    if s.len() > 0 {
        let p = s.drop_last();
        lemma_newly_seen(p, seen);
        let l = s.last();
        let np = newly_seen(p, seen);
        assert(s =~= p.push(l));
        assert forall|x: Seq<char>| s.contains(x) <==> (p.contains(x) || x == l) by {
            if s.contains(x) && x != l {
                let i = choose|i: int| 0 <= i < s.len() && s[i] == x;
                assert(p[i] == x);
            }
            if p.contains(x) {
                let i = choose|i: int| 0 <= i < p.len() && p[i] == x;
                assert(s[i] == x);
            }
            if x == l {
                assert(s[s.len() - 1] == x);
            }
        }
        if !(seen.contains(l) || np.contains(l)) {
            assert forall|x: Seq<char>| np.push(l).contains(x) <==> (np.contains(x) || x == l) by {
                if np.push(l).contains(x) && x != l {
                    let i = choose|i: int| 0 <= i < np.push(l).len() && np.push(l)[i] == x;
                    assert(np[i] == x);
                }
                if np.contains(x) {
                    let i = choose|i: int| 0 <= i < np.len() && np[i] == x;
                    assert(np.push(l)[i] == x);
                }
                if x == l {
                    assert(np.push(l)[np.len() as int] == x);
                }
            }
            assert forall|a: int, b: int| 0 <= a < b < np.push(l).len() implies np.push(l)[a] != np.push(l)[b] by {
                if b == np.len() {
                    assert(np.push(l)[a] == np[a]);
                    assert(np.contains(np[a]));
                } else {
                    assert(np.push(l)[a] == np[a] && np.push(l)[b] == np[b]);
                }
            }
        }
        assert forall|x: Seq<char>| #[trigger] newly_seen(s, seen).contains(x) <==> s.contains(x)
            && !seen.contains(x) by {
            assert(np.contains(x) <==> p.contains(x) && !seen.contains(x));
            assert(np.contains(l) <==> p.contains(l) && !seen.contains(l));
            if !(seen.contains(l) || np.contains(l)) {
                assert(newly_seen(s, seen) == np.push(l));
            } else {
                assert(newly_seen(s, seen) == np);
            }
        }
    }
}

impl UnknownTags {
    /// Note the unknown names of a batch of nodes: each node still there
    /// is resolved against the registry, the names of its explicit tags that
    /// nothing is registered under are recorded, and the names seen for the
    /// first time are handed back, once each, to be reported.
    pub fn note_batch(&mut self, batch: &Vec<Option<StageTags>>, registry: &StageTagRegistry) -> (r: Vec<
        String,
    >)
        ensures
            final(self)@ == old(self)@.union(batch_unknown(batch_view(batch@), registry@).to_set()),
            texts_of(r@) == newly_seen(batch_unknown(batch_view(batch@), registry@), old(self)@),
    {
        let ghost bv = batch_view(batch@);
        let ghost old_seen = self@;
        let mut out: Vec<String> = Vec::new();
        let mut i: usize = 0;
        assert(bv.take(0) =~= Seq::<Option<StageTagsModel>>::empty());
        assert(Seq::<Seq<char>>::empty().to_set() =~= Set::<Seq<char>>::empty());
        assert(old_seen.union(Set::<Seq<char>>::empty()) =~= old_seen);
        assert(texts_of(out@) =~= Seq::<Seq<char>>::empty());
        while i < batch.len()
            invariant
                i <= batch@.len(),
                bv == batch_view(batch@),
                self@ == old_seen.union(batch_unknown(bv.take(i as int), registry@).to_set()),
                texts_of(out@) == newly_seen(batch_unknown(bv.take(i as int), registry@), old_seen),
            decreases batch@.len() - i,
        {
            let ghost done = batch_unknown(bv.take(i as int), registry@);
            assert(bv.take(i + 1).drop_last() =~= bv.take(i as int));
            assert(bv.take(i + 1).last() == bv[i as int]);
            match &batch[i] {
                None => {
                    assert(done + Seq::<Seq<char>>::empty() =~= done);
                },
                Some(tags) => {
                    let resolved = resolve_tags(tags, registry);
                    proof {
                        law_resolution(tags@, registry@);
                    }
                    let ghost u = unregistered_names(tags@.tags, registry@);
                    assert(resolved.unknown@.map_values(|x: String| x@) == u);
                    let unknown = &resolved.unknown;
                    let mut j: usize = 0;
                    assert(done + u.take(0) =~= done);
                    while j < unknown.len()
                        invariant
                            j <= unknown@.len(),
                            unknown@.map_values(|x: String| x@) == u,
                            self@ == old_seen.union((done + u.take(j as int)).to_set()),
                            texts_of(out@) == newly_seen(done + u.take(j as int), old_seen),
                        decreases unknown@.len() - j,
                    {
                        let ghost cur = done + u.take(j as int);
                        let x = unknown[j].clone();
                        assert(u[j as int] == x@);
                        assert(cur.push(x@) =~= done + u.take(j + 1));
                        proof {
                            lemma_newly_seen(cur, old_seen);
                            cur.lemma_push_to_set_commute(x@);
                            assert(old_seen.union(cur.to_set()).insert(x@) =~= old_seen.union(
                                cur.push(x@).to_set(),
                            ));
                            assert(cur.push(x@).drop_last() =~= cur);
                            assert(old_seen.union(cur.to_set()).contains(x@) <==> (old_seen.contains(x@)
                                || cur.contains(x@)));
                        }
                        let ghost before = out@;
                        if self.record(x.clone()) {
                            out.push(x);
                            assert(texts_of(out@) =~= texts_of(before).push(x@));
                        }
                        j = j + 1;
                    }
                    assert(u.take(j as int) =~= u);
                },
            }
            i = i + 1;
        }
        assert(bv.take(i as int) =~= bv);
        out
    }
}

} // verus!
