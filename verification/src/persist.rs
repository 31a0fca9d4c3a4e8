//! Remembering what changed in a level, so it is still changed when you
//! return.
//!
//! A node is named by its glTF node index, which artists do not change by
//! renaming or re-parenting. Only nodes carrying metadata get an identity,
//! so only those can be persisted.

use vstd::prelude::*;

use crate::assoc::TextMap;
use crate::text::{texts_of, TextSet};
use bevy::platform::collections::{HashMap, HashSet};

verus! {

/// A stable name for one node of a level, valid across unload and reload.
#[derive(Debug, Clone, Copy, PartialEq, Eq, Hash, PartialOrd, Ord, Structural)]
pub struct StageNodeId(pub u32);

/// The component types a game wants remembered, by type path.
#[derive(Debug)]
pub struct PersistedComponents {
    types: TextSet,
}

impl View for PersistedComponents {
    type V = Seq<Seq<char>>;

    closed spec fn view(&self) -> Seq<Seq<char>> {
        self.types.order()
    }
}

impl PersistedComponents {
    /// Nothing registered.
    pub fn new() -> (r: Self)
        ensures
            r@.len() == 0,
    {
        PersistedComponents { types: TextSet::new() }
    }

    /// Remember the component type with this type path; registering a type
    /// twice is the same as registering it once.
    pub fn register(&mut self, type_path: String)
        ensures
            final(self)@ == if old(self)@.contains(type_path@) {
                old(self)@
            } else {
                old(self)@.push(type_path@)
            },
    {
        proof {
            self.types.lemma_order();
        }
        self.types.insert(type_path);
    }

    /// The registered type paths, in the order first registered.
    pub fn iter(&self) -> (r: &[String])
        ensures
            texts_of(r@) == self@,
    {
        self.types.iter()
    }
}

/// Bevy's hash map, held as an opaque value.
#[verifier::external_type_specification]
#[verifier::external_body]
#[verifier::reject_recursive_types(K)]
#[verifier::reject_recursive_types(V)]
#[verifier::reject_recursive_types(S)]
pub struct ExHashMap<K, V, S>(bevy::platform::collections::HashMap<K, V, S>);

/// The component values remembered for one node: (type path, serialized
/// value) pairs.
pub type ComponentValues = Vec<(String, String)>;

/// The node numbers a set of nodes holds.
pub uninterp spec fn node_numbers(s: HashSet<u32>) -> Set<u32>;

/// The component values a map holds, by node number.
pub uninterp spec fn node_values(m: HashMap<u32, ComponentValues>) -> Map<
    u32,
    Seq<(Seq<char>, Seq<char>)>,
>;

/// `HashSet::new` (bevy's platform collections): a set holding nothing.
#[verifier::external_body]
fn numbers_new() -> (r: HashSet<u32>)
    ensures
        node_numbers(r) == Set::<u32>::empty(),
        node_numbers(r).finite(),
{
    HashSet::new()
}

/// `HashSet::insert`: the set afterwards holds `n` as well, and, like every
/// set, finitely many numbers.
#[verifier::external_body]
fn numbers_insert(s: &mut HashSet<u32>, n: u32)
    ensures
        node_numbers(*final(s)) == node_numbers(*old(s)).insert(n),
        node_numbers(*final(s)).finite(),
{
    s.insert(n);
}

/// `HashSet::contains`: whether the set holds `n`.
#[verifier::external_body]
fn numbers_contain(s: &HashSet<u32>, n: u32) -> (r: bool)
    ensures
        r == node_numbers(*s).contains(n),
{
    s.contains(&n)
}

/// `HashSet::len`: how many numbers the set holds.
#[verifier::external_body]
fn numbers_len(s: &HashSet<u32>) -> (r: usize)
    ensures
        r == node_numbers(*s).len(),
{
    s.len()
}

/// `HashMap::new` (bevy's platform collections): a map holding nothing.
#[verifier::external_body]
fn values_new() -> (r: HashMap<u32, ComponentValues>)
    ensures
        node_values(r).dom() == Set::<u32>::empty(),
        node_values(r).dom().finite(),
{
    HashMap::new()
}

/// `HashMap::insert`: afterwards the map holds `values` for `n`, in place of
/// any earlier entry, and finitely many entries in all; the earlier entry
/// handed back is dropped.
#[verifier::external_body]
fn values_insert(m: &mut HashMap<u32, ComponentValues>, n: u32, values: Vec<(String, String)>)
    ensures
        node_values(*final(m)) == node_values(*old(m)).insert(n, values_model(values@)),
        node_values(*final(m)).dom().finite(),
{
    m.insert(n, values);
}

/// `HashMap::get`: the values held for `n`, if any.
#[verifier::external_body]
fn values_get(m: &HashMap<u32, ComponentValues>, n: u32) -> (r: Option<&Vec<(String, String)>>)
    ensures
        match r {
            Some(v) => node_values(*m).contains_key(n) && values_model(v@) == node_values(*m)[n],
            None => !node_values(*m).contains_key(n),
        },
{
    m.get(&n)
}

/// `HashMap::len`: how many entries the map holds.
#[verifier::external_body]
fn values_len(m: &HashMap<u32, ComponentValues>) -> (r: usize)
    ensures
        r == node_values(*m).len(),
{
    m.len()
}

/// The text pairs of a list of remembered component values.
pub open spec fn values_model(v: Seq<(String, String)>) -> Seq<(Seq<char>, Seq<char>)> {
    v.map_values(|p: (String, String)| (p.0@, p.1@))
}

/// What a [`StageDelta`] holds: the nodes still present when the level was
/// put away, and the remembered component values (type path, serialized
/// value) of each node that had any.
pub struct DeltaModel {
    pub present: Set<StageNodeId>,
    pub components: Map<StageNodeId, Seq<(Seq<char>, Seq<char>)>>,
}

/// What `record` makes of a delta.
pub open spec fn recorded(
    d: DeltaModel,
    node: StageNodeId,
    values: Seq<(Seq<char>, Seq<char>)>,
) -> DeltaModel {
    DeltaModel {
        present: d.present.insert(node),
        components: if values.len() == 0 {
            d.components
        } else {
            d.components.insert(node, values)
        },
    }
}

/// What becomes of an authored node when its level comes back.
pub enum NodeFate {
    /// It was destroyed during play, so it is removed again.
    Destroyed,
    /// Its remembered component values are put back.
    Restore(Vec<(String, String)>),
    /// Nothing was remembered about it; it stays as authored.
    Untouched,
}

/// What a [`NodeFate`] holds.
pub enum FateModel {
    Destroyed,
    Restore(Seq<(Seq<char>, Seq<char>)>),
    Untouched,
}

impl View for NodeFate {
    type V = FateModel;

    open spec fn view(&self) -> FateModel {
        match self {
            NodeFate::Destroyed => FateModel::Destroyed,
            NodeFate::Restore(v) => FateModel::Restore(values_model(v@)),
            NodeFate::Untouched => FateModel::Untouched,
        }
    }
}

/// The fate of a node: destroyed when it was not present as the level was
/// put away, otherwise restored with whatever values were remembered.
pub open spec fn spec_fate(d: DeltaModel, node: StageNodeId) -> FateModel {
    if !d.present.contains(node) {
        FateModel::Destroyed
    } else if d.components.contains_key(node) {
        FateModel::Restore(d.components[node])
    } else {
        FateModel::Untouched
    }
}

/// What changed in one level.
#[derive(Debug)]
pub struct StageDelta {
    present: HashSet<u32>,
    components: HashMap<u32, ComponentValues>,
}

/// The node ids that a set of node numbers stands for.
pub open spec fn ids_of(s: Set<u32>) -> Set<StageNodeId> {
    Set::new(|k: StageNodeId| s.contains(k.0))
}

/// The map by node id that a map by node number stands for.
pub open spec fn by_id<V>(m: Map<u32, V>) -> Map<StageNodeId, V> {
    Map::new(|k: StageNodeId| m.contains_key(k.0), |k: StageNodeId| m[k.0])
}

proof fn lemma_ids_of(s: Set<u32>)
    requires
        s.finite(),
    ensures
        ids_of(s).finite(),
        ids_of(s).len() == s.len(),
{
    let f = |n: u32| StageNodeId(n);
    assert(ids_of(s) =~= s.map(f)) by {
        assert forall|k: StageNodeId| #[trigger] ids_of(s).contains(k) implies s.map(f).contains(k) by {
            assert(f(k.0) == k);
        }
    }
    vstd::set_lib::lemma_map_size(s, ids_of(s), f);
}

impl View for StageDelta {
    type V = DeltaModel;

    closed spec fn view(&self) -> DeltaModel {
        DeltaModel { present: ids_of(node_numbers(self.present)), components: by_id(node_values(self.components)) }
    }
}

impl StageDelta {
    #[verifier::type_invariant]
    spec fn wf(self) -> bool {
        node_numbers(self.present).finite() && node_values(self.components).dom().finite()
    }

    /// Nothing recorded.
    pub fn new() -> (r: Self)
        ensures
            r@.present == Set::<StageNodeId>::empty(),
            r@.components == Map::<StageNodeId, Seq<(Seq<char>, Seq<char>)>>::empty(),
    {
        let r = StageDelta { present: numbers_new(), components: values_new() };
        assert(r@.present =~= Set::<StageNodeId>::empty());
        assert(r@.components =~= Map::<StageNodeId, Seq<(Seq<char>, Seq<char>)>>::empty());
        r
    }

    /// The record of a level as it is put away: each of its nodes with an
    /// identity, in order, with the component values read off it.
    pub fn capture(nodes: Vec<(StageNodeId, Vec<(String, String)>)>) -> (r: Self)
        ensures
            r@ == captured(nodes_model(nodes@)),
    {
        let ghost all = nodes_model(nodes@);
        let mut rest = nodes;
        let mut delta = StageDelta::new();
        let ghost mut done: nat = 0;
        while rest.len() > 0
            invariant
                done + rest@.len() == all.len(),
                nodes_model(rest@) == all.skip(done as int),
                delta@ == captured(all.take(done as int)),
            decreases rest@.len(),
        {
            let ghost before = rest@;
            let (node, values) = rest.remove(0);
            proof {
                assert(nodes_model(before)[0] == all[done as int]);
                assert(nodes_model(rest@) =~= nodes_model(before).drop_first());
                assert(all.take(done + 1 as int).drop_last() =~= all.take(done as int));
            }
            delta.record(node, values);
            proof {
                done = done + 1;
                assert(all.skip(done as int) =~= all.skip(done - 1).drop_first());
            }
        }
        assert(all.take(done as int) =~= all);
        delta
    }

    /// Record a node that was still present when the level was put away,
    /// with the component values read off it; a node with no values is
    /// recorded as present only.
    pub fn record(&mut self, node: StageNodeId, values: Vec<(String, String)>)
        ensures
            final(self)@ == recorded(old(self)@, node, values_model(values@)),
    {
        proof {
            use_type_invariant(&*self);
        }
        let mut present = numbers_new();
        std::mem::swap(&mut present, &mut self.present);
        numbers_insert(&mut present, node.0);
        self.present = present;
        assert(self@.present =~= old(self)@.present.insert(node));
        if values.len() > 0 {
            let ghost vm = values_model(values@);
            let mut components = values_new();
            std::mem::swap(&mut components, &mut self.components);
            values_insert(&mut components, node.0, values);
            self.components = components;
            assert(self@.components =~= old(self)@.components.insert(node, vm));
        }
    }

    /// Whether a node survived to the point the level was put away. A node
    /// the level file contains but this record does not was destroyed
    /// during play, and must not come back.
    pub fn is_present(&self, node: StageNodeId) -> (r: bool)
        ensures
            r == self@.present.contains(node),
    {
        numbers_contain(&self.present, node.0)
    }

    /// What becomes of an authored node when its level comes back.
    pub fn fate(&self, node: StageNodeId) -> (r: NodeFate)
        ensures
            r@ == spec_fate(self@, node),
    {
        if !self.is_present(node) {
            return NodeFate::Destroyed;
        }
        match self.values(node) {
            Some(v) => {
                let mut copy: Vec<(String, String)> = Vec::new();
                let mut i: usize = 0;
                while i < v.len()
                    invariant
                        i <= v@.len(),
                        values_model(copy@) == values_model(v@).take(i as int),
                    decreases v@.len() - i,
                {
                    let ghost before = copy@;
                    let a = v[i].0.clone();
                    let b = v[i].1.clone();
                    copy.push((a, b));
                    assert(values_model(copy@) =~= values_model(before).push((v@[i as int].0@, v@[i as int].1@)));
                    assert(values_model(copy@) =~= values_model(v@).take(i + 1));
                    i = i + 1;
                }
                assert(values_model(v@).take(v@.len() as int) =~= values_model(v@));
                NodeFate::Restore(copy)
            },
            None => NodeFate::Untouched,
        }
    }

    /// The component values remembered for a node.
    pub fn values(&self, node: StageNodeId) -> (r: Option<&Vec<(String, String)>>)
        ensures
            match r {
                Some(v) => self@.components.contains_key(node) && values_model(v@) == self@.components[node],
                None => !self@.components.contains_key(node),
            },
    {
        values_get(&self.components, node.0)
    }

    /// How many nodes carry remembered values.
    pub fn len(&self) -> (r: usize)
        ensures
            r == self@.components.len(),
    {
        let n = values_len(&self.components);
        proof {
            use_type_invariant(self);
            assert(self@.components.dom() =~= ids_of(node_values(self.components).dom()));
            lemma_ids_of(node_values(self.components).dom());
        }
        n
    }

    /// Whether nothing was remembered.
    pub fn is_empty(&self) -> (r: bool)
        ensures
            r == (self@.components.len() == 0 && self@.present.len() == 0),
    {
        let c = values_len(&self.components);
        let p = numbers_len(&self.present);
        proof {
            use_type_invariant(self);
            assert(self@.components.dom() =~= ids_of(node_values(self.components).dom()));
            lemma_ids_of(node_values(self.components).dom());
            lemma_ids_of(node_numbers(self.present));
        }
        c == 0 && p == 0
    }
}

/// Everything remembered about levels not currently in the world, keyed by
/// asset path, so a level restores whichever instance brings it back.
#[derive(Debug)]
pub struct StageDeltas {
    levels: TextMap<StageDelta>,
}

impl View for StageDeltas {
    type V = Map<Seq<char>, DeltaModel>;

    closed spec fn view(&self) -> Map<Seq<char>, DeltaModel> {
        self.levels@.map_values(|d: StageDelta| d@)
    }
}

impl StageDeltas {
    /// Nothing remembered.
    pub fn new() -> (r: Self)
        ensures
            r@ == Map::<Seq<char>, DeltaModel>::empty(),
    {
        let r = StageDeltas { levels: TextMap::new() };
        assert(r@ =~= Map::<Seq<char>, DeltaModel>::empty());
        r
    }

    /// What is remembered about a level.
    pub fn get(&self, path: &str) -> (r: Option<&StageDelta>)
        ensures
            match r {
                Some(d) => self@.contains_key(path@) && d@ == self@[path@],
                None => !self@.contains_key(path@),
            },
    {
        self.levels.get(path)
    }

    /// Remember what changed in a level as it is put away, replacing what
    /// was remembered before.
    pub fn insert(&mut self, path: String, delta: StageDelta)
        ensures
            final(self)@ == old(self)@.insert(path@, delta@),
    {
        let ghost pv = path@;
        let ghost dv = delta@;
        self.levels.insert(path, delta);
        assert(self@ =~= old(self)@.insert(pv, dv));
    }

    /// Forget a level, so it restores to how the artist authored it.
    pub fn clear(&mut self, path: &str)
        ensures
            final(self)@ == old(self)@.remove(path@),
    {
        self.levels.remove(path);
        assert(self@ =~= old(self)@.remove(path@));
    }

    /// Forget everything: a new game.
    pub fn clear_all(&mut self)
        ensures
            final(self)@ == Map::<Seq<char>, DeltaModel>::empty(),
    {
        self.levels.clear();
        assert(self@ =~= Map::<Seq<char>, DeltaModel>::empty());
    }

    /// Whether anything at all is remembered.
    pub fn is_empty(&self) -> (r: bool)
        ensures
            r == (self@.len() == 0),
    {
        assert(self@.dom() =~= self.levels@.dom());
        self.levels.len() == 0
    }
}

/// The record made of a level's nodes as it is put away: each node, in
/// order, recorded with the component values read off it.
pub open spec fn captured(nodes: Seq<(StageNodeId, Seq<(Seq<char>, Seq<char>)>)>) -> DeltaModel
    decreases nodes.len(),
{
    if nodes.len() == 0 {
        DeltaModel { present: Set::empty(), components: Map::empty() }
    } else {
        recorded(captured(nodes.drop_last()), nodes.last().0, nodes.last().1)
    }
}

/// The models of a list of nodes with their component values.
pub open spec fn nodes_model(nodes: Seq<(StageNodeId, Vec<(String, String)>)>) -> Seq<
    (StageNodeId, Seq<(Seq<char>, Seq<char>)>),
> {
    nodes.map_values(|n: (StageNodeId, Vec<(String, String)>)| (n.0, values_model(n.1@)))
}

/// What a level's record holds: exactly the listed nodes are present, and
/// exactly the listed nodes that had any component values have values
/// remembered; for a node listed once, those are its values.
pub proof fn law_capture(nodes: Seq<(StageNodeId, Seq<(Seq<char>, Seq<char>)>)>)
    ensures
        forall|k: StageNodeId|
            #[trigger] captured(nodes).present.contains(k) <==> exists|i: int|
                0 <= i < nodes.len() && nodes[i].0 == k,
        forall|k: StageNodeId|
            #[trigger] captured(nodes).components.contains_key(k) <==> exists|i: int|
                0 <= i < nodes.len() && nodes[i].0 == k && nodes[i].1.len() > 0,
        forall|i: int|
            0 <= i < nodes.len() && nodes[i].1.len() > 0 && (forall|j: int|
                0 <= j < nodes.len() && j != i ==> nodes[j].0 != nodes[i].0) ==> #[trigger] captured(
                nodes,
            ).components[nodes[i].0] == nodes[i].1,
    decreases nodes.len(),
{
    if nodes.len() > 0 {
        let p = nodes.drop_last();
        law_capture(p);
        assert forall|k: StageNodeId| #[trigger] captured(nodes).present.contains(k) <==> exists|i: int|
            0 <= i < nodes.len() && nodes[i].0 == k by {
            if captured(nodes).present.contains(k) && k != nodes.last().0 {
                assert(captured(p).present.contains(k));
                let i = choose|i: int| 0 <= i < p.len() && p[i].0 == k;
                assert(nodes[i] == p[i]);
            }
            if exists|i: int| 0 <= i < nodes.len() && nodes[i].0 == k {
                let i = choose|i: int| 0 <= i < nodes.len() && nodes[i].0 == k;
                if i < p.len() {
                    assert(p[i] == nodes[i]);
                    assert(captured(p).present.contains(k));
                }
            }
        }
        assert forall|k: StageNodeId| #[trigger] captured(nodes).components.contains_key(k) <==> exists|i: int|
            0 <= i < nodes.len() && nodes[i].0 == k && nodes[i].1.len() > 0 by {
            if captured(nodes).components.contains_key(k) && !(k == nodes.last().0 && nodes.last().1.len() > 0) {
                assert(captured(p).components.contains_key(k));
                let i = choose|i: int| 0 <= i < p.len() && p[i].0 == k && p[i].1.len() > 0;
                assert(nodes[i] == p[i]);
            }
            if exists|i: int| 0 <= i < nodes.len() && nodes[i].0 == k && nodes[i].1.len() > 0 {
                let i = choose|i: int| 0 <= i < nodes.len() && nodes[i].0 == k && nodes[i].1.len() > 0;
                if i < p.len() {
                    assert(p[i] == nodes[i]);
                    assert(captured(p).components.contains_key(k));
                }
            }
        }
        assert forall|i: int|
            0 <= i < nodes.len() && nodes[i].1.len() > 0 && (forall|j: int|
                0 <= j < nodes.len() && j != i ==> nodes[j].0 != nodes[i].0) implies #[trigger] captured(
                nodes,
            ).components[nodes[i].0] == nodes[i].1 by {
            if i < p.len() {
                assert(p[i] == nodes[i]);
                assert forall|j: int| 0 <= j < p.len() && j != i implies p[j].0 != p[i].0 by {
                    assert(p[j] == nodes[j]);
                }
                assert(nodes[nodes.len() - 1].0 != nodes[i].0);
                assert(captured(p).components[p[i].0] == p[i].1);
            }
        }
    }
}

/// A node recorded as the level is put away comes back with the values
/// recorded for it, and a node the record does not hold (destroyed during
/// play) stays destroyed.
pub proof fn law_recorded_node_comes_back(
    d: DeltaModel,
    node: StageNodeId,
    values: Seq<(Seq<char>, Seq<char>)>,
    other: StageNodeId,
)
    ensures
        spec_fate(recorded(d, node, values), node) == if values.len() == 0 {
            if d.components.contains_key(node) {
                FateModel::Restore(d.components[node])
            } else {
                FateModel::Untouched
            }
        } else {
            FateModel::Restore(values)
        },
        !d.present.contains(other) ==> spec_fate(d, other) == FateModel::Destroyed,
{
}

/// What is remembered is what comes back: after a level's record is stored,
/// looking the level up gives that record, and every other level's record is
/// unchanged; forgetting a level leaves it with nothing remembered.
pub proof fn law_remember_and_forget(
    deltas: Map<Seq<char>, DeltaModel>,
    path: Seq<char>,
    other: Seq<char>,
    delta: DeltaModel,
)
    requires
        other != path,
    ensures
        deltas.insert(path, delta).contains_key(path),
        deltas.insert(path, delta)[path] == delta,
        deltas.insert(path, delta).contains_key(other) == deltas.contains_key(other),
        deltas.contains_key(other) ==> deltas.insert(path, delta)[other] == deltas[other],
        !deltas.remove(path).contains_key(path),
{
}

} // verus!
