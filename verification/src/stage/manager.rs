//! The levels currently in the world, and the requests to change that.

use vstd::prelude::*;
use vstd::string::*;

use crate::stage::scan::{
    anchors_view, find_all_anchors, find_anchor, path_view, spec_find_all_anchors, spec_find_anchor,
    SceneNode,
};
use crate::text::{decimal, decimal_text, texts_of, TextSet};
use bevy::platform::collections::HashMap;

verus! {

/// Identifies one resident copy of a level.
///
/// A level can be resident more than once, so identity belongs to the
/// instance, not the file.
#[derive(Debug, Clone, Copy, PartialEq, Eq, Hash, PartialOrd, Ord, Structural)]
pub struct StageId(pub u32);

/// How far along a resident stage is.
#[derive(Debug, Clone, PartialEq)]
pub enum StageStatus {
    /// The glTF is being read off disk.
    Loading,
    /// The asset is ready and the scene is being spawned.
    Spawning,
    /// Fully spawned and in position.
    Ready,
    /// The load failed; the message says why.
    Failed(String),
}

impl StageStatus {
    /// Whether the stage is fully spawned and placed.
    pub fn is_ready(&self) -> (r: bool)
        ensures
            r == (*self is Ready),
    {
        match self {
            StageStatus::Ready => true,
            _ => false,
        }
    }

    /// Promote a stage whose scene has finished spawning to ready.
    pub fn settle(&mut self, instance_ready: bool)
        ensures
            (*old(self) is Spawning && instance_ready) ==> *final(self) is Ready,
            !(*old(self) is Spawning && instance_ready) ==> *final(self) == *old(self),
    {
        if instance_ready {
            if let StageStatus::Spawning = self {
                *self = StageStatus::Ready;
            }
        }
    }
}

/// A queued request to bring a level into the world.
#[derive(Debug)]
pub struct StageRequest<P> {
    /// The instance the level will become.
    pub id: StageId,
    /// The asset to load.
    pub path: String,
    /// Where it should sit.
    pub placement: P,
}

/// What a [`StageRequest`] holds.
pub struct RequestModel<P> {
    pub id: StageId,
    pub path: Seq<char>,
    pub placement: P,
}

impl<P> View for StageRequest<P> {
    type V = RequestModel<P>;

    open spec fn view(&self) -> RequestModel<P> {
        RequestModel { id: self.id, path: self.path@, placement: self.placement }
    }
}

/// The models of a list of requests.
pub open spec fn requests_model<P>(s: Seq<StageRequest<P>>) -> Seq<RequestModel<P>> {
    s.map_values(|r: StageRequest<P>| r@)
}

/// The root entities a map holds, by stage number.
pub uninterp spec fn root_entities(m: HashMap<u32, u64>) -> Map<u32, u64>;

/// `HashMap::new` (bevy's platform collections): a map holding nothing.
#[verifier::external_body]
fn roots_new() -> (r: HashMap<u32, u64>)
    ensures
        root_entities(r).dom() == Set::<u32>::empty(),
        root_entities(r).dom().finite(),
{
    HashMap::new()
}

/// `HashMap::get`, the value copied out: the entity held for `n`, if any.
#[verifier::external_body]
fn roots_get(m: &HashMap<u32, u64>, n: u32) -> (r: Option<u64>)
    ensures
        match r {
            Some(e) => root_entities(*m).contains_key(n) && e == root_entities(*m)[n],
            None => !root_entities(*m).contains_key(n),
        },
{
    m.get(&n).copied()
}

/// `HashMap::insert`: afterwards the map holds `e` for `n`, in place of any
/// earlier entry, and finitely many entries in all; the earlier entry handed
/// back is dropped.
#[verifier::external_body]
fn roots_insert(m: &mut HashMap<u32, u64>, n: u32, e: u64)
    ensures
        root_entities(*final(m)) == root_entities(*old(m)).insert(n, e),
        root_entities(*final(m)).dom().finite(),
{
    m.insert(n, e);
}

/// `HashMap::remove`: afterwards the map holds nothing for `n`, and the
/// entity it held for `n`, if any, is handed back.
#[verifier::external_body]
fn roots_remove(m: &mut HashMap<u32, u64>, n: u32) -> (r: Option<u64>)
    ensures
        root_entities(*final(m)) == root_entities(*old(m)).remove(n),
        root_entities(*final(m)).dom().finite(),
        match r {
            Some(e) => root_entities(*old(m)).contains_key(n) && e == root_entities(*old(m))[n],
            None => !root_entities(*old(m)).contains_key(n),
        },
{
    m.remove(&n)
}

/// `HashMap::len`: how many entries the map holds.
#[verifier::external_body]
fn roots_len(m: &HashMap<u32, u64>) -> (r: usize)
    ensures
        r == root_entities(*m).len(),
{
    m.len()
}

/// `HashMap::iter`, each entry copied out: every entry once, in an order the
/// map does not fix.
#[verifier::external_body]
fn roots_listed(m: &HashMap<u32, u64>) -> (r: Vec<(u32, u64)>)
    ensures
        r@.len() == root_entities(*m).len(),
        forall|i: int, j: int| 0 <= i < j < r@.len() ==> #[trigger] r@[i].0 != #[trigger] r@[j].0,
        forall|i: int|
            0 <= i < r@.len() ==> root_entities(*m).contains_key(#[trigger] r@[i].0) && root_entities(
                *m,
            )[r@[i].0] == r@[i].1,
{
    m.iter().map(|(n, e)| (*n, *e)).collect()
}

/// The map by stage id that a map by stage number stands for.
pub open spec fn by_stage<V>(m: Map<u32, V>) -> Map<StageId, V> {
    Map::new(|k: StageId| m.contains_key(k.0), |k: StageId| m[k.0])
}

proof fn lemma_by_stage_len<V>(m: Map<u32, V>)
    requires
        m.dom().finite(),
    ensures
        by_stage(m).dom().finite(),
        by_stage(m).len() == m.len(),
{
    let f = |n: u32| StageId(n);
    assert(by_stage(m).dom() =~= m.dom().map(f)) by {
        assert forall|k: StageId| #[trigger] by_stage(m).dom().contains(k) implies m.dom().map(f).contains(k) by {
            assert(f(k.0) == k);
        }
    }
    vstd::set_lib::lemma_map_size(m.dom(), by_stage(m).dom(), f);
}

/// The root entities of resident stages, by id, each entity by its bits.
#[derive(Debug)]
pub struct ResidentStages {
    roots: HashMap<u32, u64>,
}

impl View for ResidentStages {
    type V = Map<StageId, u64>;

    closed spec fn view(&self) -> Map<StageId, u64> {
        by_stage(root_entities(self.roots))
    }
}

impl ResidentStages {
    #[verifier::type_invariant]
    spec fn wf(self) -> bool {
        root_entities(self.roots).dom().finite()
    }

    /// Nothing resident.
    pub fn new() -> (r: Self)
        ensures
            r@ == Map::<StageId, u64>::empty(),
    {
        let r = ResidentStages { roots: roots_new() };
        assert(r@ =~= Map::<StageId, u64>::empty());
        r
    }

    /// The entity a stage is rooted at.
    pub fn get(&self, id: StageId) -> (r: Option<u64>)
        ensures
            match r {
                Some(e) => self@.contains_key(id) && e == self@[id],
                None => !self@.contains_key(id),
            },
    {
        roots_get(&self.roots, id.0)
    }

    /// How many stages are resident.
    pub fn len(&self) -> (r: usize)
        ensures
            r == self@.len(),
            self@.dom().finite(),
    {
        proof {
            use_type_invariant(self);
            lemma_by_stage_len(root_entities(self.roots));
        }
        roots_len(&self.roots)
    }

    /// Every resident stage and its root entity, in no fixed order.
    pub fn iter(&self) -> (r: Vec<(StageId, u64)>)
        ensures
            r@.len() == self@.len(),
            forall|i: int, j: int| 0 <= i < j < r@.len() ==> #[trigger] r@[i].0 != #[trigger] r@[j].0,
            forall|i: int| 0 <= i < r@.len() ==> self@.contains_key(#[trigger] r@[i].0) && self@[r@[i].0] == r@[i].1,
    {
        proof {
            use_type_invariant(self);
            lemma_by_stage_len(root_entities(self.roots));
        }
        let listed = roots_listed(&self.roots);
        let mut out: Vec<(StageId, u64)> = Vec::new();
        let mut i: usize = 0;
        while i < listed.len()
            invariant
                i <= listed@.len(),
                out@.len() == i,
                forall|j: int| 0 <= j < i ==> #[trigger] out@[j] == (StageId(listed@[j].0), listed@[j].1),
            decreases listed@.len() - i,
        {
            out.push((StageId(listed[i].0), listed[i].1));
            i = i + 1;
        }
        proof {
            assert forall|a: int, b: int| 0 <= a < b < out@.len() implies #[trigger] out@[a].0 != #[trigger] out@[b].0 by {
                assert(listed@[a].0 != listed@[b].0);
            }
            assert forall|a: int| 0 <= a < out@.len() implies self@.contains_key(#[trigger] out@[a].0) && self@[out@[a].0]
                == out@[a].1 by {
                assert(root_entities(self.roots).contains_key(listed@[a].0));
            }
        }
        out
    }

    /// Record a stage's root entity.
    pub fn insert(&mut self, id: StageId, entity: u64)
        ensures
            final(self)@ == old(self)@.insert(id, entity),
    {
        let mut roots = roots_new();
        std::mem::swap(&mut roots, &mut self.roots);
        roots_insert(&mut roots, id.0, entity);
        self.roots = roots;
        assert(self@ =~= old(self)@.insert(id, entity));
    }

    /// Forget a stage, handing back its root entity if it was resident.
    pub fn remove(&mut self, id: StageId) -> (r: Option<u64>)
        ensures
            final(self)@ == old(self)@.remove(id),
            match r {
                Some(e) => old(self)@.contains_key(id) && e == old(self)@[id],
                None => !old(self)@.contains_key(id),
            },
    {
        let mut roots = roots_new();
        std::mem::swap(&mut roots, &mut self.roots);
        let r = roots_remove(&mut roots, id.0);
        self.roots = roots;
        assert(self@ =~= old(self)@.remove(id));
        r
    }
}

/// What a [`StageManager`] holds.
pub struct ManagerModel<P, E> {
    pub next_id: nat,
    pub requests: Seq<RequestModel<P>>,
    pub unloads: Seq<StageId>,
    pub resident: Map<StageId, E>,
    pub active: Option<StageId>,
    pub max_resident: nat,
}

/// Carry out queued unloads in order: each stage is forgotten, the active
/// stage is cleared if it is among them, and the root entities of those that
/// were resident are handed back, in order, for despawning.
pub open spec fn apply_unloads<E>(
    resident: Map<StageId, E>,
    active: Option<StageId>,
    ids: Seq<StageId>,
) -> (Map<StageId, E>, Option<StageId>, Seq<E>)
    decreases ids.len(),
{
    if ids.len() == 0 {
        (resident, active, Seq::empty())
    } else {
        let (r, a, d) = apply_unloads(resident, active, ids.drop_last());
        let id = ids.last();
        (
            r.remove(id),
            if a == Some(id) {
                None
            } else {
                a
            },
            if r.contains_key(id) {
                d.push(r[id])
            } else {
                d
            },
        )
    }
}

/// The set of levels currently in the world.
///
/// Requests are queued and carried out by the plugin's systems, so game code
/// can ask for a level from anywhere. `P` is how a requested level is to be
/// placed, and is not looked into here; a resident level's root entity is
/// held by its bits.
#[derive(Debug)]
pub struct StageManager<P> {
    next_id: u32,
    requests: Vec<StageRequest<P>>,
    unloads: Vec<StageId>,
    resident: ResidentStages,
    active: Option<StageId>,
    /// The most levels allowed in the world at once: a backstop against a
    /// mis-authored level graph loading levels without bound.
    pub max_resident: usize,
}

impl<P> View for StageManager<P> {
    type V = ManagerModel<P, u64>;

    closed spec fn view(&self) -> ManagerModel<P, u64> {
        ManagerModel {
            next_id: self.next_id as nat,
            requests: requests_model(self.requests@),
            unloads: self.unloads@,
            resident: self.resident@,
            active: self.active,
            max_resident: self.max_resident as nat,
        }
    }
}

impl<P> Default for StageManager<P> {
    fn default() -> (r: Self)
        ensures
            r@.next_id == 0,
            r@.requests.len() == 0,
            r@.unloads.len() == 0,
            r@.resident == Map::<StageId, u64>::empty(),
            r@.active is None,
            r@.max_resident == 8,
    {
        StageManager {
            next_id: 0,
            requests: Vec::new(),
            unloads: Vec::new(),
            resident: ResidentStages::new(),
            active: None,
            max_resident: 8,
        }
    }
}

impl<P> StageManager<P> {
    /// Queue a level to be brought in, returning the instance it will become.
    ///
    /// Instance ids are handed out in sequence; the next one must fit in a
    /// `u32`.
    pub fn request(&mut self, path: String, placement: P) -> (r: StageId)
        requires
            old(self)@.next_id < u32::MAX,
        ensures
            r == StageId(old(self)@.next_id as u32),
            final(self)@ == (ManagerModel {
                next_id: old(self)@.next_id + 1,
                requests: old(self)@.requests.push(
                    RequestModel { id: r, path: path@, placement },
                ),
                ..old(self)@
            }),
    {
        let id = StageId(self.next_id);
        self.next_id = self.next_id + 1;
        let ghost before = self.requests@;
        self.requests.push(StageRequest { id, path, placement });
        assert(requests_model(self.requests@) =~= requests_model(before).push(
            self.requests@.last()@,
        ));
        id
    }

    /// Ask for a level, and everything it spawned, to be removed.
    pub fn unload(&mut self, id: StageId)
        ensures
            final(self)@ == (ManagerModel { unloads: old(self)@.unloads.push(id), ..old(self)@ }),
    {
        self.unloads.push(id);
    }

    /// Mark a level as the one the player is in.
    pub fn activate(&mut self, id: StageId)
        ensures
            final(self)@ == (ManagerModel { active: Some(id), ..old(self)@ }),
    {
        self.active = Some(id);
    }

    /// The level the player is currently in.
    pub fn active(&self) -> (r: Option<StageId>)
        ensures
            r == self@.active,
    {
        self.active
    }

    /// The root entity of a resident level.
    pub fn entity(&self, id: StageId) -> (r: Option<u64>)
        ensures
            match r {
                Some(e) => self@.resident.contains_key(id) && e == self@.resident[id],
                None => !self@.resident.contains_key(id),
            },
    {
        self.resident.get(id)
    }

    /// Whether a level is in the world, at any stage of loading.
    pub fn is_resident(&self, id: StageId) -> (r: bool)
        ensures
            r == self@.resident.contains_key(id),
    {
        self.resident.get(id).is_some()
    }

    /// Levels queued to be removed, so state can be captured before the
    /// entities go away.
    pub fn pending_unloads(&self) -> (r: &[StageId])
        ensures
            r@ == self@.unloads,
    {
        self.unloads.as_slice()
    }

    /// Every resident level and its root entity.
    pub fn resident(&self) -> (r: Vec<(StageId, u64)>)
        ensures
            r@.len() == self@.resident.len(),
            forall|i: int, j: int| 0 <= i < j < r@.len() ==> #[trigger] r@[i].0 != #[trigger] r@[j].0,
            forall|i: int|
                0 <= i < r@.len() ==> self@.resident.contains_key(#[trigger] r@[i].0)
                    && self@.resident[r@[i].0] == r@[i].1,
    {
        self.resident.iter()
    }

    /// How many levels are resident.
    pub fn len(&self) -> (r: usize)
        ensures
            r == self@.resident.len(),
    {
        self.resident.len()
    }

    /// Whether nothing is resident.
    pub fn is_empty(&self) -> (r: bool)
        ensures
            r == (self@.resident.len() == 0),
    {
        self.resident.len() == 0
    }

    /// Hand over the queued requests, oldest first, to be started.
    pub fn take_requests(&mut self) -> (r: Vec<StageRequest<P>>)
        ensures
            requests_model(r@) == old(self)@.requests,
            final(self)@ == (ManagerModel { requests: Seq::empty(), ..old(self)@ }),
    {
        let mut taken: Vec<StageRequest<P>> = Vec::new();
        std::mem::swap(&mut taken, &mut self.requests);
        assert(requests_model(self.requests@) =~= Seq::<RequestModel<P>>::empty());
        taken
    }

    /// Whether another level may be loaded: fewer than `max_resident` are
    /// resident. A request made when there is no room is refused, though
    /// its instance is still recorded, as failed.
    pub fn has_room(&self) -> (r: bool)
        ensures
            r == (self@.resident.len() < self@.max_resident),
    {
        self.resident.len() < self.max_resident
    }

    /// Record the root entity a requested level was given.
    pub fn insert_resident(&mut self, id: StageId, entity: u64)
        ensures
            final(self)@ == (ManagerModel {
                resident: old(self)@.resident.insert(id, entity),
                ..old(self)@
            }),
    {
        self.resident.insert(id, entity);
    }

    /// Carry out the queued unloads (see [`apply_unloads`]), returning the
    /// root entities to despawn.
    pub fn process_unloads(&mut self) -> (r: Vec<u64>)
        ensures
            ({
                let (res, act, gone) = apply_unloads(
                    old(self)@.resident,
                    old(self)@.active,
                    old(self)@.unloads,
                );
                &&& final(self)@ == (ManagerModel {
                    unloads: Seq::empty(),
                    resident: res,
                    active: act,
                    ..old(self)@
                })
                &&& r@ == gone
            }),
    {
        let mut ids: Vec<StageId> = Vec::new();
        std::mem::swap(&mut ids, &mut self.unloads);
        let mut gone: Vec<u64> = Vec::new();
        let mut i: usize = 0;
        while i < ids.len()
            invariant
                i <= ids@.len(),
                self.unloads@.len() == 0,
                ({
                    let (res, act, d) = apply_unloads(
                        old(self)@.resident,
                        old(self)@.active,
                        ids@.take(i as int),
                    );
                    &&& self.resident@ == res
                    &&& self.active == act
                    &&& gone@ == d
                }),
                self.next_id == old(self).next_id,
                self.requests == old(self).requests,
                self.max_resident == old(self).max_resident,
                ids@ == old(self)@.unloads,
            decreases ids@.len() - i,
        {
            assert(ids@.take(i + 1).drop_last() =~= ids@.take(i as int));
            let id = ids[i];
            if let Some(entity) = self.resident.remove(id) {
                gone.push(entity);
            }
            if let Some(a) = self.active {
                if a.0 == id.0 {
                    self.active = None;
                }
            }
            i = i + 1;
        }
        assert(ids@.take(ids@.len() as int) =~= ids@);
        assert(self.unloads@ =~= Seq::<StageId>::empty());
        gone
    }

    /// What to do with a request about to be started: refuse it when the
    /// world already holds `max_resident` levels, else begin loading. Either
    /// way the instance is recorded, under a root named after the level.
    pub fn start_load(&self, path: &str) -> (r: LoadStart)
        ensures
            self@.resident.len() < self@.max_resident ==> (r matches LoadStart::Begin { name }
                && name@ == spec_stage_name(path@, false)),
            self@.resident.len() >= self@.max_resident ==> (r matches LoadStart::Refuse { name, reason }
                && name@ == spec_stage_name(path@, true) && reason@ == spec_refused_message(
                self@.max_resident,
            )),
    {
        if self.has_room() {
            LoadStart::Begin { name: stage_name(path, false) }
        } else {
            LoadStart::Refuse { name: stage_name(path, true), reason: refused_message(self.max_resident) }
        }
    }

    /// How each of a batch of requests is started, in order: the `k`-th is
    /// begun while the stages resident before the batch, together with those
    /// the requests before it became, number fewer than `max_resident`, and
    /// refused otherwise.
    pub fn plan_loads(&self, requests: &Vec<StageRequest<P>>) -> (r: Vec<LoadStart>)
        ensures
            is_load_plan(self@, requests_model(requests@), r@),
    {
        let ghost ids = request_ids(requests_model(requests@));
        let ghost dom = self@.resident.dom();
        let n0 = self.resident.len();
        let max = self.max_resident;
        let mut held: usize = if n0 < max {
            n0
        } else {
            max
        };
        proof {
            assert(ids.take(0).to_set() =~= Set::<StageId>::empty());
            assert(held_before(dom, ids, 0) =~= dom);
        }
        let mut plan: Vec<LoadStart> = Vec::new();
        let mut k: usize = 0;
        while k < requests.len()
            invariant
                k <= requests@.len(),
                ids == request_ids(requests_model(requests@)),
                dom == self@.resident.dom(),
                dom.finite(),
                max == self@.max_resident,
                held_before(dom, ids, k as int).finite(),
                held as nat == if held_before(dom, ids, k as int).len() < max {
                    held_before(dom, ids, k as int).len()
                } else {
                    max as nat
                },
                plan@.len() == k,
                forall|j: int|
                    0 <= j < k ==> starts_as(
                        #[trigger] plan@[j],
                        held_before(dom, ids, j).len(),
                        max as nat,
                        requests_model(requests@)[j].path,
                    ),
            decreases requests@.len() - k,
        {
            let id = requests[k].id;
            let path = requests[k].path.as_str();
            let start = if held < max {
                LoadStart::Begin { name: stage_name(path, false) }
            } else {
                LoadStart::Refuse { name: stage_name(path, true), reason: refused_message(max) }
            };
            plan.push(start);
            let mut earlier = false;
            let mut j: usize = 0;
            while j < k
                invariant
                    j <= k < requests@.len(),
                    earlier == exists|i: int| 0 <= i < j && #[trigger] requests@[i].id == id,
                decreases k - j,
            {
                if requests[j].id.0 == id.0 {
                    earlier = true;
                }
                j = j + 1;
            }
            let known = earlier || self.resident.get(id).is_some();
            proof {
                assert(ids[k as int] == id);
                lemma_held_step(dom, ids, k as int);
                vstd::set::axiom_set_insert_len(held_before(dom, ids, k as int), id);
                if earlier {
                    let i = choose|i: int| 0 <= i < k && #[trigger] requests@[i].id == id;
                    assert(ids.take(k as int)[i] == id);
                }
                if ids.take(k as int).contains(id) {
                    let i = choose|i: int| 0 <= i < k && #[trigger] ids.take(k as int)[i] == id;
                    assert(requests@[i].id == id);
                }
            }
            if !known && held < max {
                held = held + 1;
            }
            k = k + 1;
        }
        plan
    }

    /// Record the root entities a batch of requests was given, in order.
    pub fn record_roots(&mut self, roots: &Vec<(StageId, u64)>)
        ensures
            final(self)@ == (ManagerModel {
                resident: with_roots(old(self)@.resident, roots@),
                ..old(self)@
            }),
    {
        let mut i: usize = 0;
        while i < roots.len()
            invariant
                i <= roots@.len(),
                self@ == (ManagerModel {
                    resident: with_roots(old(self)@.resident, roots@.take(i as int)),
                    ..old(self)@
                }),
            decreases roots@.len() - i,
        {
            assert(roots@.take(i + 1).drop_last() =~= roots@.take(i as int));
            let (id, entity) = roots[i];
            self.resident.insert(id, entity);
            i = i + 1;
        }
        assert(roots@.take(roots@.len() as int) =~= roots@);
    }

    /// Hand over to `stage` when the player walks through a portal into it:
    /// nothing happens if it is already active, not resident, or not yet
    /// ready; otherwise it becomes active, and its root entity and the stage
    /// left behind are handed back.
    pub fn hand_over(&mut self, stage: StageId, ready: bool) -> (r: HandOver<u64>)
        ensures
            old(self)@.active == Some(stage) ==> r is AlreadyActive,
            old(self)@.active != Some(stage) && !old(self)@.resident.contains_key(stage) ==> r is NotResident,
            old(self)@.active != Some(stage) && old(self)@.resident.contains_key(stage) && !ready
                ==> r is NotReady,
            !(r is Entered) ==> final(self)@ == old(self)@,
            old(self)@.active != Some(stage) && old(self)@.resident.contains_key(stage) && ready ==> r
                == HandOver::Entered(old(self)@.resident[stage], old(self)@.active) && final(self)@ == (
            ManagerModel { active: Some(stage), ..old(self)@ }),
    {
        if let Some(a) = self.active {
            if a.0 == stage.0 {
                return HandOver::AlreadyActive;
            }
        }
        let entity = match self.resident.get(stage) {
            Some(e) => e,
            None => {
                return HandOver::NotResident;
            },
        };
        if !ready {
            return HandOver::NotReady;
        }
        let from = self.active;
        self.active = Some(stage);
        HandOver::Entered(entity, from)
    }

    /// Whether a resident stage is left far enough behind to unload: it is
    /// not the active stage, it is ready, there is at least one streaming
    /// source, and it lies beyond the unload distance of every one of them.
    /// With no sources at all nothing is far, so a game that has not set one
    /// up never has levels vanish underneath it.
    pub fn left_behind(&self, stage: StageId, ready: bool, any_source: bool, beyond_every_source: bool) -> (r:
        bool)
        ensures
            r == (self@.active != Some(stage) && ready && any_source && beyond_every_source),
    {
        let active = match self.active {
            Some(a) => a.0 == stage.0,
            None => false,
        };
        !active && ready && any_source && beyond_every_source
    }

    /// The instance id the next request will be given.
    pub fn next_id(&self) -> (r: u32)
        ensures
            r == self@.next_id,
    {
        self.next_id
    }
}

/// The outcome of walking through a portal into a stage.
#[derive(Debug, PartialEq, Eq, Structural)]
pub enum HandOver<E> {
    /// The player is already in that stage.
    AlreadyActive,
    /// The stage is not in the world.
    NotResident,
    /// The stage has not finished loading: the player outran the load.
    NotReady,
    /// The stage is now active: its root entity, and the stage left behind.
    Entered(E, Option<StageId>),
}

/// How long to wait for a level to spawn before giving up on linking its
/// return portal. Generous: this is a load from disk, not a frame budget.
pub const RETURN_LINK_TIMEOUT_FRAMES: u32 = 1800;

/// Count one more frame spent waiting to link a return portal, and whether
/// the wait is over: it linked, or it has waited past the timeout.
pub fn return_link_wait(waited: u32, linked: bool) -> (r: (u32, bool))
    requires
        waited < u32::MAX,
    ensures
        r.0 == waited + 1,
        r.1 == (linked || waited + 1 > RETURN_LINK_TIMEOUT_FRAMES),
{
    let next = waited + 1;
    (next, linked || next > RETURN_LINK_TIMEOUT_FRAMES)
}

/// Names joined with a separator between each pair.
pub open spec fn join_texts(names: Seq<Seq<char>>, sep: Seq<char>) -> Seq<char>
    decreases names.len(),
{
    if names.len() == 0 {
        Seq::empty()
    } else if names.len() == 1 {
        names[0]
    } else {
        join_texts(names.drop_last(), sep) + sep + names.last()
    }
}

/// The failure recorded for a level placed against an anchor it does not
/// have: it names the level, the anchor, and the anchors it does have.
pub open spec fn spec_missing_anchor_message(
    path: Seq<char>,
    anchor: Seq<char>,
    found: Seq<Seq<char>>,
) -> Seq<char> {
    "`"@ + path + "` has no anchor named `"@ + anchor + "` (found: "@ + join_texts(found, ", "@)
        + ")"@
}

/// The failure message for a level placed against an anchor it does not have.
pub fn missing_anchor_message(path: &str, anchor: &str, found: &[String]) -> (r: String)
    ensures
        r@ == spec_missing_anchor_message(path@, anchor@, texts_of(found@)),
{
    let mut list = String::new();
    let mut i: usize = 0;
    while i < found.len()
        invariant
            i <= found@.len(),
            list@ == join_texts(texts_of(found@).take(i as int), ", "@),
        decreases found@.len() - i,
    {
        let ghost prefix = texts_of(found@).take(i as int);
        assert(texts_of(found@).take(i + 1).drop_last() =~= prefix);
        if i > 0 {
            list.append(", ");
        } else {
            assert(list@ =~= Seq::<char>::empty());
        }
        list.append(found[i].as_str());
        proof {
            if i == 0 {
                assert(list@ =~= texts_of(found@).take(1)[0]);
            }
        }
        i = i + 1;
    }
    assert(texts_of(found@).take(found@.len() as int) =~= texts_of(found@));
    let mut m = String::new();
    m.append("`");
    m.append(path);
    m.append("` has no anchor named `");
    m.append(anchor);
    m.append("` (found: ");
    m.append(list.as_str());
    m.append(")");
    assert(m@ =~= spec_missing_anchor_message(path@, anchor@, texts_of(found@)));
    m
}

/// The failure recorded for a level file with no default scene.
pub fn no_scene_message(path: &str) -> (r: String)
    ensures
        r@ == spec_no_scene_message(path@),
{
    let mut m = String::new();
    m.append("`");
    m.append(path);
    m.append("` declares no default scene");
    assert(m@ =~= spec_no_scene_message(path@));
    m
}

/// How a request is started.
#[derive(Debug)]
pub enum LoadStart {
    /// There is room: the level starts loading under a root of this name.
    Begin { name: String },
    /// The world is full: the level is recorded as failed, for this reason.
    Refuse { name: String, reason: String },
}

/// The name a stage's root entity is given.
pub open spec fn spec_stage_name(path: Seq<char>, refused: bool) -> Seq<char> {
    "Stage("@ + path + ")"@ + if refused {
        " [refused]"@
    } else {
        Seq::empty()
    }
}

/// The name a stage's root entity is given, marked when it was refused.
pub fn stage_name(path: &str, refused: bool) -> (r: String)
    ensures
        r@ == spec_stage_name(path@, refused),
{
    let mut m = String::new();
    m.append("Stage(");
    m.append(path);
    m.append(")");
    if refused {
        m.append(" [refused]");
    }
    assert(m@ =~= spec_stage_name(path@, refused));
    m
}

/// Why a request was refused.
pub open spec fn spec_refused_message(max_resident: nat) -> Seq<char> {
    "refused: already holding "@ + decimal(max_resident) + " levels"@
}

/// Why a request was refused: the world already holds its quota of levels.
pub fn refused_message(max_resident: usize) -> (r: String)
    ensures
        r@ == spec_refused_message(max_resident as nat),
{
    let mut m = String::new();
    m.append("refused: already holding ");
    let n = decimal_text(max_resident);
    m.append(n.as_str());
    m.append(" levels");
    assert(m@ =~= spec_refused_message(max_resident as nat));
    m
}

/// Whether `r` is how a request for `path` is started when `held` levels are
/// already in the world: begun while fewer than `max_resident` are, refused
/// otherwise.
pub open spec fn starts_as(r: LoadStart, held: nat, max_resident: nat, path: Seq<char>) -> bool {
    if held < max_resident {
        r matches LoadStart::Begin { name } && name@ == spec_stage_name(path, false)
    } else {
        r matches LoadStart::Refuse { name, reason } && name@ == spec_stage_name(path, true)
            && reason@ == spec_refused_message(max_resident)
    }
}

/// The ids of a batch of requests, in order.
pub open spec fn request_ids<P>(requests: Seq<RequestModel<P>>) -> Seq<StageId> {
    requests.map_values(|q: RequestModel<P>| q.id)
}

/// The stages in the world when the `k`-th request of a batch is started:
/// those resident before the batch and those the first `k` requests became.
pub open spec fn held_before(resident: Set<StageId>, ids: Seq<StageId>, k: int) -> Set<StageId> {
    resident.union(ids.take(k).to_set())
}

/// How each request of a batch is started, in order, each counting the
/// stages the requests before it became.
pub open spec fn is_load_plan<P, E>(
    m: ManagerModel<P, E>,
    requests: Seq<RequestModel<P>>,
    plan: Seq<LoadStart>,
) -> bool {
    &&& plan.len() == requests.len()
    &&& forall|k: int|
        0 <= k < plan.len() ==> starts_as(
            #[trigger] plan[k],
            held_before(m.resident.dom(), request_ids(requests), k).len(),
            m.max_resident,
            requests[k].path,
        )
}

/// The resident stages once each root of a batch is recorded, in order.
pub open spec fn with_roots<E>(resident: Map<StageId, E>, roots: Seq<(StageId, E)>) -> Map<
    StageId,
    E,
>
    decreases roots.len(),
{
    if roots.len() == 0 {
        resident
    } else {
        with_roots(resident, roots.drop_last()).insert(roots.last().0, roots.last().1)
    }
}

/// The roots a batch of requests was given, paired with their ids.
pub open spec fn roots_of<P, E>(requests: Seq<RequestModel<P>>, entities: Seq<E>) -> Seq<
    (StageId, E),
> {
    Seq::new(requests.len(), |i: int| (requests[i].id, entities[i]))
}

/// No two requests of the batch share an id, and none is already resident.
pub open spec fn fresh_ids(resident: Set<StageId>, ids: Seq<StageId>) -> bool {
    &&& ids.no_duplicates()
    &&& forall|i: int| 0 <= i < ids.len() ==> !resident.contains(#[trigger] ids[i])
}

proof fn lemma_held_step(resident: Set<StageId>, ids: Seq<StageId>, k: int)
    requires
        resident.finite(),
        0 <= k < ids.len(),
    ensures
        held_before(resident, ids, k).finite(),
        held_before(resident, ids, k + 1) == held_before(resident, ids, k).insert(ids[k]),
        held_before(resident, ids, k).contains(ids[k]) <==> (resident.contains(ids[k])
            || ids.take(k).contains(ids[k])),
{
    assert(ids.take(k + 1) =~= ids.take(k).push(ids[k]));
    ids.take(k).lemma_push_to_set_commute(ids[k]);
    vstd::seq_lib::seq_to_set_is_finite(ids.take(k));
    vstd::set::axiom_set_union_finite(resident, ids.take(k).to_set());
    assert(held_before(resident, ids, k + 1) =~= held_before(resident, ids, k).insert(ids[k]));
    if ids.take(k).contains(ids[k]) {
        let j = choose|j: int| 0 <= j < k && #[trigger] ids.take(k)[j] == ids[k];
        assert(ids.take(k).to_set().contains(ids.take(k)[j]));
    }
    if ids.take(k).to_set().contains(ids[k]) {
        assert(ids.take(k).contains(ids[k]));
    }
}

proof fn lemma_fresh_held(resident: Set<StageId>, ids: Seq<StageId>, k: int)
    requires
        resident.finite(),
        fresh_ids(resident, ids),
        0 <= k <= ids.len(),
    ensures
        held_before(resident, ids, k).finite(),
        held_before(resident, ids, k).len() == resident.len() + k,
    decreases k,
{
    if k == 0 {
        assert(ids.take(0).to_set() =~= Set::<StageId>::empty());
        assert(held_before(resident, ids, 0) =~= resident);
    } else {
        lemma_fresh_held(resident, ids, k - 1);
        lemma_held_step(resident, ids, k - 1);
        if ids.take(k - 1).contains(ids[k - 1]) {
            let j = choose|j: int| 0 <= j < k - 1 && #[trigger] ids.take(k - 1)[j] == ids[k - 1];
            assert(ids[j] == ids[k - 1]);
        }
        vstd::set::axiom_set_insert_len(held_before(resident, ids, k - 1), ids[k - 1]);
    }
}

proof fn lemma_with_roots_dom<E>(resident: Map<StageId, E>, roots: Seq<(StageId, E)>)
    ensures
        with_roots(resident, roots).dom() =~= resident.dom().union(
            roots.map_values(|p: (StageId, E)| p.0).to_set(),
        ),
    decreases roots.len(),
{
    let ids = roots.map_values(|p: (StageId, E)| p.0);
    if roots.len() == 0 {
        assert(ids.to_set() =~= Set::<StageId>::empty());
    } else {
        let t = roots.drop_last();
        lemma_with_roots_dom(resident, t);
        let tid = t.map_values(|p: (StageId, E)| p.0);
        assert(ids =~= tid.push(roots.last().0));
        tid.lemma_push_to_set_commute(roots.last().0);
    }
}

/// A batch of requests whose ids are fresh is started in order while there
/// is room: the `k`-th request begins loading exactly when the levels
/// resident before the batch plus the `k` requests before it number fewer
/// than `max_resident`, and is refused otherwise, so no more than
/// `max_resident` levels are ever begun. Once every root is recorded, the
/// world holds one more level for each request.
pub proof fn law_batch_admission<P, E>(
    m: ManagerModel<P, E>,
    requests: Seq<RequestModel<P>>,
    plan: Seq<LoadStart>,
    entities: Seq<E>,
)
    requires
        m.resident.dom().finite(),
        fresh_ids(m.resident.dom(), request_ids(requests)),
        is_load_plan(m, requests, plan),
        entities.len() == requests.len(),
    ensures
        forall|k: int|
            0 <= k < plan.len() ==> (#[trigger] plan[k] is Begin <==> m.resident.len() + k
                < m.max_resident),
        with_roots(m.resident, roots_of(requests, entities)).dom() == held_before(
            m.resident.dom(),
            request_ids(requests),
            requests.len() as int,
        ),
        with_roots(m.resident, roots_of(requests, entities)).len() == m.resident.len()
            + requests.len(),
{
    let ids = request_ids(requests);
    assert forall|k: int| 0 <= k < plan.len() implies (#[trigger] plan[k] is Begin <==> m.resident.len()
        + k < m.max_resident) by {
        lemma_fresh_held(m.resident.dom(), ids, k);
    }
    let roots = roots_of(requests, entities);
    lemma_with_roots_dom(m.resident, roots);
    assert(roots.map_values(|p: (StageId, E)| p.0) =~= ids.take(requests.len() as int));
    lemma_fresh_held(m.resident.dom(), ids, requests.len() as int);
}

/// The failure recorded for a level file with no default scene.
pub open spec fn spec_no_scene_message(path: Seq<char>) -> Seq<char> {
    "`"@ + path + "` declares no default scene"@
}

/// The texts in order of first appearance, each once.
pub open spec fn distinct_texts(s: Seq<Seq<char>>) -> Seq<Seq<char>>
    decreases s.len(),
{
    if s.len() == 0 {
        Seq::empty()
    } else if distinct_texts(s.drop_last()).contains(s.last()) {
        distinct_texts(s.drop_last())
    } else {
        distinct_texts(s.drop_last()).push(s.last())
    }
}

/// The ids of a list of anchors found.
pub open spec fn anchor_ids(found: Seq<(Seq<char>, Seq<usize>)>) -> Seq<Seq<char>> {
    found.map_values(|e: (Seq<char>, Seq<usize>)| e.0)
}

/// What a loading stage does this frame.
#[derive(Debug)]
pub enum SpawnPlan {
    /// The stage is not loading: nothing to do.
    Skip,
    /// The asset has not arrived yet.
    Wait,
    /// The load failed, for this reason.
    Fail(String),
    /// Place and spawn the level: `at` is the chain of nodes leading to the
    /// anchor it is placed by (`None` for a fixed placement), and `anchors`
    /// are all the connection points it offers.
    Spawn { at: Option<Vec<usize>>, anchors: Vec<(String, Vec<usize>)> },
}

/// Decide what a stage does once its asset may have arrived.
///
/// `load_error` is the asset server's failure, if it failed; `nodes` the
/// level's nodes once the asset is loaded; `anchor` the anchor the level is
/// to be placed by, for a connected placement. Placement is worked out from
/// the asset before the scene spawns, so a level is in the right place on the
/// first frame it exists.
pub fn plan_spawn(
    status: &StageStatus,
    path: &str,
    load_error: Option<String>,
    nodes: Option<&Vec<Option<SceneNode>>>,
    has_default_scene: bool,
    anchor: Option<&str>,
    discriminator: &str,
) -> (r: SpawnPlan)
    ensures
        !(*status is Loading) ==> r is Skip,
        *status is Loading && load_error is Some ==> (r matches SpawnPlan::Fail(m) && m@
            == load_error->Some_0@),
        *status is Loading && load_error is None && nodes is None ==> r is Wait,
        *status is Loading && load_error is None && nodes is Some && !has_default_scene ==> (r matches SpawnPlan::Fail(
            m,
        ) && m@ == spec_no_scene_message(path@)),
        *status is Loading && load_error is None && has_default_scene ==> match nodes {
            None => true,
            Some(ns) => match anchor {
                None => r matches SpawnPlan::Spawn { at, anchors } && at is None && anchors_view(anchors@)
                    == spec_find_all_anchors(ns@, discriminator@),
                Some(a) => match spec_find_anchor(ns@, a@, discriminator@) {
                    Some(p) => r matches SpawnPlan::Spawn { at, anchors } && path_view(at) == Some(p)
                        && anchors_view(anchors@) == spec_find_all_anchors(ns@, discriminator@),
                    None => r matches SpawnPlan::Fail(m) && m@ == spec_missing_anchor_message(
                        path@,
                        a@,
                        distinct_texts(anchor_ids(spec_find_all_anchors(ns@, discriminator@))),
                    ),
                },
            },
        },
{
    match status {
        StageStatus::Loading => {},
        _ => {
            return SpawnPlan::Skip;
        },
    }
    if let Some(error) = load_error {
        return SpawnPlan::Fail(error);
    }
    let ns = match nodes {
        Some(ns) => ns,
        None => {
            return SpawnPlan::Wait;
        },
    };
    if !has_default_scene {
        return SpawnPlan::Fail(no_scene_message(path));
    }
    let anchors = find_all_anchors(ns, discriminator);
    let wanted = match anchor {
        Some(a) => a,
        None => {
            return SpawnPlan::Spawn { at: None, anchors };
        },
    };
    match find_anchor(ns, wanted, discriminator) {
        Some(p) => SpawnPlan::Spawn { at: Some(p), anchors },
        None => {
            let ghost ids = anchor_ids(anchors_view(anchors@));
            let mut seen = TextSet::new();
            let mut k: usize = 0;
            while k < anchors.len()
                invariant
                    k <= anchors@.len(),
                    ids == anchor_ids(anchors_view(anchors@)),
                    seen.order() == distinct_texts(ids.take(k as int)),
                    seen@ == seen.order().to_set(),
                decreases anchors@.len() - k,
            {
                assert(ids.take(k + 1).drop_last() =~= ids.take(k as int));
                assert(ids[k as int] == anchors@[k as int].0@);
                seen.insert(anchors[k].0.clone());
                proof {
                    seen.lemma_order();
                }
                k = k + 1;
            }
            assert(ids.take(k as int) =~= ids);
            let m = missing_anchor_message(path, wanted, seen.iter());
            SpawnPlan::Fail(m)
        },
    }
}

/// Unloading is final: once a stage's unload has been carried out it is no
/// longer resident and no longer active, whatever else was queued before it.
pub proof fn law_unload_forgets<E>(
    resident: Map<StageId, E>,
    active: Option<StageId>,
    queued: Seq<StageId>,
    id: StageId,
)
    ensures
        ({
            let (res, act, _) = apply_unloads(resident, active, queued.push(id));
            !res.contains_key(id) && act != Some(id)
        }),
{
    assert(queued.push(id).drop_last() =~= queued);
}

/// Every unload hands back exactly the root entities of the stages it
/// removes, so nothing a level spawned is left behind: the stages resident
/// afterwards are those resident before, less the unloaded ones.
pub proof fn law_unloads_partition<E>(
    resident: Map<StageId, E>,
    active: Option<StageId>,
    ids: Seq<StageId>,
)
    ensures
        ({
            let (res, _, _) = apply_unloads(resident, active, ids);
            forall|k: StageId|
                #[trigger] res.contains_key(k) <==> resident.contains_key(k) && !ids.contains(k)
        }),
    decreases ids.len(),
{
    if ids.len() > 0 {
        law_unloads_partition(resident, active, ids.drop_last());
        let (res, _, _) = apply_unloads(resident, active, ids);
        let (pr, _, _) = apply_unloads(resident, active, ids.drop_last());
        assert(res == pr.remove(ids.last()));
        assert forall|k: StageId| #[trigger] res.contains_key(k) <==> resident.contains_key(k)
            && !ids.contains(k) by {
            if ids.drop_last().contains(k) {
                let j = choose|j: int| 0 <= j < ids.drop_last().len() && ids.drop_last()[j] == k;
                assert(ids[j] == k);
            }
            if ids.contains(k) && k != ids.last() {
                let j = choose|j: int| 0 <= j < ids.len() && ids[j] == k;
                assert(ids.drop_last()[j] == k);
            }
        }
    }
}

/// Unloading clears the active stage only when the active stage is among
/// those unloaded: unloading a level the player has left behind keeps the
/// player's level active, and with no active level there is none after.
pub proof fn law_unloads_keep_active<E>(
    resident: Map<StageId, E>,
    active: Option<StageId>,
    ids: Seq<StageId>,
)
    ensures
        apply_unloads(resident, active, ids).1 == match active {
            None => None,
            Some(a) => if ids.contains(a) {
                None
            } else {
                Some(a)
            },
        },
    decreases ids.len(),
{
    if ids.len() > 0 {
        let p = ids.drop_last();
        law_unloads_keep_active(resident, active, p);
        if let Some(a) = active {
            if p.contains(a) {
                let j = choose|j: int| 0 <= j < p.len() && p[j] == a;
                assert(ids[j] == a);
            }
            if ids.contains(a) && ids.last() != a {
                let j = choose|j: int| 0 <= j < ids.len() && ids[j] == a;
                assert(p[j] == a);
            }
            if ids.last() == a {
                assert(ids[ids.len() - 1] == a);
            }
        }
    }
}

proof fn lemma_unloads_keep_values<E>(resident: Map<StageId, E>, active: Option<StageId>, ids: Seq<StageId>)
    ensures
        forall|k: StageId|
            #[trigger] apply_unloads(resident, active, ids).0.contains_key(k) ==> apply_unloads(
                resident,
                active,
                ids,
            ).0[k] == resident[k],
    decreases ids.len(),
{
    if ids.len() > 0 {
        lemma_unloads_keep_values(resident, active, ids.drop_last());
        let (pr, _, _) = apply_unloads(resident, active, ids.drop_last());
        let (res, _, _) = apply_unloads(resident, active, ids);
        assert(res == pr.remove(ids.last()));
        assert forall|k: StageId| #[trigger] res.contains_key(k) implies res[k] == resident[k] by {
            assert(pr.contains_key(k));
        }
    }
}

/// Unloading a list of distinct stages hands back, in order, the root entity
/// of each of them that was resident, and nothing else: every entity a level
/// spawned goes with its root, and no level that stays loses its root.
pub proof fn law_unloads_hand_back_roots<E>(
    resident: Map<StageId, E>,
    active: Option<StageId>,
    ids: Seq<StageId>,
)
    requires
        ids.no_duplicates(),
    ensures
        apply_unloads(resident, active, ids).2 == ids.filter(|k: StageId| resident.contains_key(k)).map_values(
            |k: StageId| resident[k],
        ),
    decreases ids.len(),
{
    let f = |k: StageId| resident.contains_key(k);
    let g = |k: StageId| resident[k];
    if ids.len() == 0 {
        assert(ids.filter(f) =~= Seq::<StageId>::empty()) by {
            reveal(Seq::filter);
        }
        assert(ids.filter(f).map_values(g) =~= Seq::<E>::empty());
    } else {
        let p = ids.drop_last();
        let id = ids.last();
        assert(p.no_duplicates()) by {
            assert forall|a: int, b: int| 0 <= a < p.len() && 0 <= b < p.len() && a != b implies p[a] != p[b] by {
                assert(p[a] == ids[a] && p[b] == ids[b]);
            }
        }
        law_unloads_hand_back_roots(resident, active, p);
        law_unloads_partition(resident, active, p);
        lemma_unloads_keep_values(resident, active, p);
        assert(!p.contains(id)) by {
            if p.contains(id) {
                let j = choose|j: int| 0 <= j < p.len() && p[j] == id;
                assert(ids[j] == ids[ids.len() - 1]);
            }
        }
        assert(ids.filter(f) == if f(id) {
            p.filter(f).push(id)
        } else {
            p.filter(f)
        }) by {
            reveal(Seq::filter);
        }
        if f(id) {
            assert(p.filter(f).push(id).map_values(g) =~= p.filter(f).map_values(g).push(g(id)));
        }
    }
}

} // verus!
