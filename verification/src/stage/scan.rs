//! Reading a level's structure from its node graph, before anything is spawned.
//!
//! Placement needs one thing: where a named anchor sits relative to its own
//! stage root. The scene is read as a flat list of nodes (the glTF node
//! array), each with its name, its raw `extras` text and the indices of its
//! children. The scan answers with the chain of node indices from a scene
//! root down to the anchor; composing the nodes' transforms along that chain
//! gives the anchor's placement.

use vstd::prelude::*;

use crate::tag::component::{tags_model, TagModel};
use crate::tag::parse::{parse_extras, parse_node_name, spec_parse_extras, spec_parse_node_name};
use crate::tag::value::{normalize, normalize_key, ValueModel};
use crate::text::same_text;

verus! {

/// The tag that marks a named connection point.
pub const ANCHOR_TAG: &'static str = "anchor";

/// The characters of [`ANCHOR_TAG`].
pub open spec fn anchor_word() -> Seq<char> {
    seq!['a', 'n', 'c', 'h', 'o', 'r']
}

/// The parameter that names an anchor.
pub open spec fn id_word() -> Seq<char> {
    seq!['i', 'd']
}

/// One glTF node as the scan reads it.
pub struct SceneNode {
    /// The node's name, as authored.
    pub name: String,
    /// The node's raw `extras` JSON, if it has any.
    pub extras: Option<String>,
    /// Indices of the node's children in the node list.
    pub children: Vec<usize>,
}

/// The text of an optional `extras` blob.
pub open spec fn extras_text(extras: Option<String>) -> Option<Seq<char>> {
    match extras {
        Some(t) => Some(t@),
        None => None,
    }
}

/// The position of the first tag whose key normalizes like `anchor`.
pub open spec fn first_anchor(tags: Seq<TagModel>) -> Option<int>
    decreases tags.len(),
{
    if tags.len() == 0 {
        None
    } else if normalize(tags[0].key) == normalize(anchor_word()) {
        Some(0)
    } else {
        match first_anchor(tags.drop_first()) {
            Some(i) => Some(i + 1),
            None => None,
        }
    }
}

proof fn lemma_first_anchor(tags: Seq<TagModel>)
    ensures
        match first_anchor(tags) {
            Some(i) => 0 <= i < tags.len() && normalize(tags[i].key) == normalize(anchor_word())
                && forall|j: int| 0 <= j < i ==> normalize(#[trigger] tags[j].key) != normalize(anchor_word()),
            None => forall|j: int| 0 <= j < tags.len() ==> normalize(#[trigger] tags[j].key) != normalize(anchor_word()),
        },
    decreases tags.len(),
{
    if tags.len() > 0 {
        lemma_first_anchor(tags.drop_first());
        assert forall|j: int| 1 <= j < tags.len() implies #[trigger] tags[j] == tags.drop_first()[j - 1] by {}
    }
}

/// A parameter's value when it is a string.
pub open spec fn text_param(params: Map<Seq<char>, ValueModel>, key: Seq<char>) -> Option<Seq<char>> {
    if params.contains_key(key) && params[key] is Text {
        Some(params[key]->Text_0)
    } else {
        None
    }
}

/// The anchor id a node declares: the first `anchor` tag of its `extras`,
/// named by its `id` parameter or else by the node's base name; failing
/// that, a node whose base name is itself `anchor`, named by the `id` of its
/// inline parameters.
pub open spec fn spec_anchor_id_of(name: Seq<char>, extras: Option<Seq<char>>, d: Seq<char>) -> Option<
    Seq<char>,
> {
    let base = spec_parse_node_name(name).0;
    let tagged = match extras {
        Some(text) => match spec_parse_extras(text, d) {
            Ok(parsed) => match first_anchor(parsed.1) {
                Some(i) => Some(
                    match text_param(parsed.1[i].params, id_word()) {
                        Some(id) => id,
                        None => base,
                    },
                ),
                None => None,
            },
            Err(_) => None,
        },
        None => None,
    };
    match tagged {
        Some(id) => Some(id),
        None => if normalize(base) == normalize(anchor_word()) {
            text_param(spec_parse_node_name(name).1, id_word())
        } else {
            None
        },
    }
}

/// The anchor id a node declares, if any.
pub fn anchor_id_of(name: &str, extras: Option<&str>, discriminator: &str) -> (r: Option<String>)
    ensures
        match r {
            Some(id) => spec_anchor_id_of(name@, extras_view(extras), discriminator@) == Some(id@),
            None => spec_anchor_id_of(name@, extras_view(extras), discriminator@) is None,
        },
{
    let (base_name, name_params) = parse_node_name(name);
    let anchor = normalize_key(ANCHOR_TAG);
    proof {
        reveal_strlit("anchor");
        reveal_strlit("id");
        assert(ANCHOR_TAG@ =~= anchor_word());
        assert("id"@ =~= id_word());
    }
    if let Some(text) = extras {
        if let Ok((_, tags)) = parse_extras(text, discriminator) {
            let ghost models = tags_model(tags@);
            proof {
                lemma_first_anchor(models);
            }
            let mut i: usize = 0;
            #[verifier::loop_isolation(false)]
            while i < tags.len()
                invariant
                    i <= tags@.len(),
                    models == tags_model(tags@),
                    anchor@ == normalize(anchor_word()),
                    forall|j: int| 0 <= j < i ==> normalize(#[trigger] models[j].key) != normalize(anchor_word()),
                decreases tags@.len() - i,
            {
                let key = normalize_key(tags[i].key.as_str());
                assert(models[i as int] == tags@[i as int]@);
                if same_text(key.as_str(), anchor.as_str()) {
                    proof {
                        assert(key@ == anchor@);
                        assert(models[i as int].key == tags@[i as int].key@);
                        assert(normalize(models[i as int].key) == normalize(anchor_word()));
                        if first_anchor(models) != Some(i as int) {
                            match first_anchor(models) {
                                Some(f) => {
                                    assert(f < i || f > i);
                                },
                                None => {},
                            }
                        }
                    }
                    let params = &tags[i].params;
                    assert(models[i as int].params == params@);
                    let id = match params.get_str("id") {
                        Some(s) => {
                            assert(text_param(params@, id_word()) == Some(s@));
                            s.to_owned()
                        },
                        None => {
                            assert(text_param(params@, id_word()) is None);
                            base_name.clone()
                        },
                    };
                    assert(extras_view(extras) == Some(text@));
                    assert(spec_parse_extras(text@, discriminator@) matches Ok(parsed) && parsed.1 == models);
                    assert(first_anchor(models) == Some(i as int));
                    assert(base_name@ == spec_parse_node_name(name@).0);
                    assert(id@ == match text_param(models[i as int].params, id_word()) {
                        Some(x) => x,
                        None => base_name@,
                    });
                    return Some(id);
                }
                i = i + 1;
            }
            assert(first_anchor(models) is None) by {
                if let Some(f) = first_anchor(models) {
                    assert(normalize(models[f].key) != normalize(anchor_word()));
                }
            }
        }
    }
    let base_key = normalize_key(base_name.as_str());
    if same_text(base_key.as_str(), anchor.as_str()) {
        match name_params.get_str("id") {
            Some(s) => Some(s.to_owned()),
            None => None,
        }
    } else {
        None
    }
}

/// The text of an optional `extras` slice.
pub open spec fn extras_view(extras: Option<&str>) -> Option<Seq<char>> {
    match extras {
        Some(t) => Some(t@),
        None => None,
    }
}

/// Whether a node is the anchor wanted (`wanted` already normalized): it
/// declares an anchor id that normalizes to `wanted`, or its own base name
/// does.
pub open spec fn spec_node_matches(node: SceneNode, wanted: Seq<char>, d: Seq<char>) -> bool {
    ||| (match spec_anchor_id_of(node.name@, extras_text(node.extras), d) {
        Some(id) => normalize(id) == wanted,
        None => false,
    })
    ||| normalize(spec_parse_node_name(node.name@).0) == wanted
}

/// Whether `node` is the anchor wanted (`wanted` already normalized).
pub fn node_matches(node: &SceneNode, wanted: &str, discriminator: &str) -> (r: bool)
    ensures
        r == spec_node_matches(*node, wanted@, discriminator@),
{
    let extras: Option<&str> = match &node.extras {
        Some(t) => Some(t.as_str()),
        None => None,
    };
    assert(extras_view(extras) == extras_text(node.extras));
    if let Some(id) = anchor_id_of(node.name.as_str(), extras, discriminator) {
        let key = normalize_key(id.as_str());
        if same_text(key.as_str(), wanted) {
            return true;
        }
    }
    let (base_name, _) = parse_node_name(node.name.as_str());
    let key = normalize_key(base_name.as_str());
    same_text(key.as_str(), wanted)
}

/// Whether some loaded node lists `c` among its children.
pub open spec fn claimed(nodes: Seq<Option<SceneNode>>, c: usize) -> bool {
    exists|j: int, m: int|
        0 <= j < nodes.len() && nodes[j] is Some && 0 <= m < nodes[j]->Some_0.children@.len()
            && #[trigger] nodes[j]->Some_0.children@[m] == c
}

/// The nodes among the first `k` that no node claims as a child, in order.
pub open spec fn roots_below(nodes: Seq<Option<SceneNode>>, k: nat) -> Seq<usize>
    decreases k,
{
    if k == 0 {
        Seq::empty()
    } else if !claimed(nodes, (k - 1) as usize) {
        roots_below(nodes, (k - 1) as nat).push((k - 1) as usize)
    } else {
        roots_below(nodes, (k - 1) as nat)
    }
}

/// The scene roots: the nodes that are not a child of any loaded node.
pub open spec fn spec_scene_roots(nodes: Seq<Option<SceneNode>>) -> Seq<usize> {
    roots_below(nodes, nodes.len())
}

/// The nodes that are not a child of any other node.
///
/// The node list is flat, so the roots are found by elimination: anything
/// claimed as somebody's child is not a root.
pub fn scene_roots(nodes: &Vec<Option<SceneNode>>) -> (r: Vec<usize>)
    ensures
        r@ == spec_scene_roots(nodes@),
{
    let n = nodes.len();
    let mut marked: Vec<bool> = Vec::new();
    while marked.len() < n
        invariant
            marked@.len() <= n,
            forall|c: int| 0 <= c < marked@.len() ==> !#[trigger] marked@[c],
        decreases n - marked@.len(),
    {
        marked.push(false);
    }
    let mut j: usize = 0;
    while j < n
        invariant
            n == nodes@.len(),
            j <= n,
            marked@.len() == n,
            forall|c: int| 0 <= c < n ==> #[trigger] marked@[c] == exists|j2: int, m: int|
                0 <= j2 < j && nodes@[j2] is Some && 0 <= m < nodes@[j2]->Some_0.children@.len()
                    && #[trigger] nodes@[j2]->Some_0.children@[m] == c,
        decreases n - j,
    {
        if let Some(node) = &nodes[j] {
            let mut m: usize = 0;
            while m < node.children.len()
                invariant
                    n == nodes@.len(),
                    j < n,
                    nodes@[j as int] == Some(*node),
                    m <= node.children@.len(),
                    marked@.len() == n,
                    forall|c: int| 0 <= c < n ==> #[trigger] marked@[c] == ((exists|j2: int, m2: int|
                        0 <= j2 < j && nodes@[j2] is Some && 0 <= m2 < nodes@[j2]->Some_0.children@.len()
                            && #[trigger] nodes@[j2]->Some_0.children@[m2] == c) || exists|m2: int|
                        0 <= m2 < m && #[trigger] node.children@[m2] == c),
                decreases node.children@.len() - m,
            {
                let c = node.children[m];
                if c < n {
                    marked.set(c, true);
                }
                m = m + 1;
            }
        }
        j = j + 1;
    }
    let mut roots: Vec<usize> = Vec::new();
    let mut k: usize = 0;
    while k < n
        invariant
            n == nodes@.len(),
            k <= n,
            marked@.len() == n,
            forall|c: int| 0 <= c < n ==> #[trigger] marked@[c] == claimed(nodes@, c as usize),
            roots@ == roots_below(nodes@, k as nat),
        decreases n - k,
    {
        if !marked[k] {
            roots.push(k);
        }
        k = k + 1;
    }
    roots
}

/// The chain of node indices from a root to the first match below node `i`,
/// depth first, children in order; `prefix` is the chain above `i`. The
/// search goes at most `fuel` levels further down; the scan gives it as many
/// levels as the level has nodes, so that a node graph with a cycle, which a
/// glTF file may not have, still ends, while on one without cycles the bound
/// never cuts a search short (see [`law_depth_bound_is_enough`]).
pub open spec fn spec_search(
    nodes: Seq<Option<SceneNode>>,
    i: usize,
    prefix: Seq<usize>,
    wanted: Seq<char>,
    d: Seq<char>,
    fuel: nat,
) -> Option<Seq<usize>>
    decreases fuel, 0nat,
{
    if i >= nodes.len() {
        None
    } else {
        match nodes[i as int] {
            None => None,
            Some(node) => if spec_node_matches(node, wanted, d) {
                Some(prefix.push(i))
            } else if fuel == 0 {
                None
            } else {
                spec_search_children(nodes, node.children@, prefix.push(i), wanted, d, (fuel - 1) as nat)
            },
        }
    }
}

/// The first match found below any of the nodes `cs`, in order.
pub open spec fn spec_search_children(
    nodes: Seq<Option<SceneNode>>,
    cs: Seq<usize>,
    prefix: Seq<usize>,
    wanted: Seq<char>,
    d: Seq<char>,
    fuel: nat,
) -> Option<Seq<usize>>
    decreases fuel, cs.len(),
{
    if cs.len() == 0 {
        None
    } else {
        match spec_search(nodes, cs[0], prefix, wanted, d, fuel) {
            Some(p) => Some(p),
            None => spec_search_children(nodes, cs.drop_first(), prefix, wanted, d, fuel),
        }
    }
}

/// The view of an optional chain of node indices.
pub open spec fn path_view(p: Option<Vec<usize>>) -> Option<Seq<usize>> {
    match p {
        Some(v) => Some(v@),
        None => None,
    }
}

/// `prefix` with `i` appended.
fn extend_path(prefix: &Vec<usize>, i: usize) -> (r: Vec<usize>)
    ensures
        r@ == prefix@.push(i),
{
    let mut r: Vec<usize> = Vec::new();
    let mut k: usize = 0;
    while k < prefix.len()
        invariant
            k <= prefix@.len(),
            r@ == prefix@.take(k as int),
        decreases prefix@.len() - k,
    {
        r.push(prefix[k]);
        k = k + 1;
        assert(r@ =~= prefix@.take(k as int));
    }
    assert(prefix@.take(k as int) =~= prefix@);
    r.push(i);
    r
}

fn search(
    nodes: &Vec<Option<SceneNode>>,
    i: usize,
    prefix: &Vec<usize>,
    wanted: &str,
    discriminator: &str,
    fuel: usize,
) -> (r: Option<Vec<usize>>)
    ensures
        path_view(r) == spec_search(nodes@, i, prefix@, wanted@, discriminator@, fuel as nat),
    decreases fuel, 0nat,
{
    if i >= nodes.len() {
        return None;
    }
    match &nodes[i] {
        None => None,
        Some(node) => {
            let here = extend_path(prefix, i);
            if node_matches(node, wanted, discriminator) {
                return Some(here);
            }
            if fuel == 0 {
                return None;
            }
            search_children(nodes, &node.children, &here, wanted, discriminator, fuel - 1)
        },
    }
}

fn search_children(
    nodes: &Vec<Option<SceneNode>>,
    cs: &Vec<usize>,
    prefix: &Vec<usize>,
    wanted: &str,
    discriminator: &str,
    fuel: usize,
) -> (r: Option<Vec<usize>>)
    ensures
        path_view(r) == spec_search_children(nodes@, cs@, prefix@, wanted@, discriminator@, fuel as nat),
    decreases fuel, 1nat,
{
    let mut k: usize = 0;
    assert(cs@.skip(0) =~= cs@);
    while k < cs.len()
        invariant
            k <= cs@.len(),
            spec_search_children(nodes@, cs@, prefix@, wanted@, discriminator@, fuel as nat)
                == spec_search_children(nodes@, cs@.skip(k as int), prefix@, wanted@, discriminator@, fuel as nat),
        decreases cs@.len() - k,
    {
        assert(cs@.skip(k as int).drop_first() =~= cs@.skip(k + 1));
        assert(cs@.skip(k as int)[0] == cs@[k as int]);
        if let Some(p) = search(nodes, cs[k], prefix, wanted, discriminator, fuel) {
            return Some(p);
        }
        k = k + 1;
    }
    None
}

/// Where the anchor `anchor_id` is: the chain of node indices from a scene
/// root down to it, found depth first over the roots in order.
pub open spec fn spec_find_anchor(nodes: Seq<Option<SceneNode>>, anchor_id: Seq<char>, d: Seq<char>) -> Option<
    Seq<usize>,
> {
    spec_search_children(nodes, spec_scene_roots(nodes), Seq::empty(), normalize(anchor_id), d, nodes.len())
}

/// Find a named anchor: the chain of node indices from its scene root down
/// to it, along which the node transforms compose to its placement relative
/// to the stage root.
///
/// An anchor matches when the node is tagged `anchor` with an `id` property
/// equal to `anchor_id`, or — for artists who would rather just name the empty
/// — when the node's own name matches `anchor_id`.
pub fn find_anchor(nodes: &Vec<Option<SceneNode>>, anchor_id: &str, discriminator: &str) -> (r: Option<
    Vec<usize>,
>)
    ensures
        path_view(r) == spec_find_anchor(nodes@, anchor_id@, discriminator@),
{
    let wanted = normalize_key(anchor_id);
    let roots = scene_roots(nodes);
    let top: Vec<usize> = Vec::new();
    assert(top@ =~= Seq::<usize>::empty());
    search_children(nodes, &roots, &top, wanted.as_str(), discriminator, nodes.len())
}

/// Every anchor at or below node `i`, depth first, each with its chain of
/// node indices; `prefix` is the chain above `i`.
pub open spec fn spec_collect(
    nodes: Seq<Option<SceneNode>>,
    i: usize,
    prefix: Seq<usize>,
    d: Seq<char>,
    fuel: nat,
) -> Seq<(Seq<char>, Seq<usize>)>
    decreases fuel, 0nat,
{
    if i >= nodes.len() {
        Seq::empty()
    } else {
        match nodes[i as int] {
            None => Seq::empty(),
            Some(node) => {
                let here = match spec_anchor_id_of(node.name@, extras_text(node.extras), d) {
                    Some(id) => seq![(id, prefix.push(i))],
                    None => Seq::empty(),
                };
                if fuel == 0 {
                    here
                } else {
                    here + spec_collect_children(nodes, node.children@, prefix.push(i), d, (fuel - 1) as nat)
                }
            },
        }
    }
}

/// Every anchor at or below any of the nodes `cs`, in order.
pub open spec fn spec_collect_children(
    nodes: Seq<Option<SceneNode>>,
    cs: Seq<usize>,
    prefix: Seq<usize>,
    d: Seq<char>,
    fuel: nat,
) -> Seq<(Seq<char>, Seq<usize>)>
    decreases fuel, cs.len(),
{
    if cs.len() == 0 {
        Seq::empty()
    } else {
        spec_collect(nodes, cs[0], prefix, d, fuel) + spec_collect_children(nodes, cs.drop_first(), prefix, d, fuel)
    }
}

/// The view of a list of anchors found.
pub open spec fn anchors_view(found: Seq<(String, Vec<usize>)>) -> Seq<(Seq<char>, Seq<usize>)> {
    found.map_values(|e: (String, Vec<usize>)| (e.0@, e.1@))
}

fn collect(
    nodes: &Vec<Option<SceneNode>>,
    i: usize,
    prefix: &Vec<usize>,
    discriminator: &str,
    out: &mut Vec<(String, Vec<usize>)>,
    fuel: usize,
)
    ensures
        anchors_view(final(out)@) == anchors_view(old(out)@) + spec_collect(
            nodes@,
            i,
            prefix@,
            discriminator@,
            fuel as nat,
        ),
    decreases fuel, 0nat,
{
    if i >= nodes.len() {
        assert(anchors_view(out@) =~= anchors_view(out@) + Seq::<(Seq<char>, Seq<usize>)>::empty());
        return ;
    }
    match &nodes[i] {
        None => {
            assert(anchors_view(out@) =~= anchors_view(out@) + Seq::<(Seq<char>, Seq<usize>)>::empty());
        },
        Some(node) => {
            let ghost before = anchors_view(out@);
            let here = extend_path(prefix, i);
            let extras: Option<&str> = match &node.extras {
                Some(t) => Some(t.as_str()),
                None => None,
            };
            assert(extras_view(extras) == extras_text(node.extras));
            let ghost here_found = match spec_anchor_id_of(node.name@, extras_text(node.extras), discriminator@) {
                Some(id) => seq![(id, prefix@.push(i))],
                None => Seq::<(Seq<char>, Seq<usize>)>::empty(),
            };
            if let Some(id) = anchor_id_of(node.name.as_str(), extras, discriminator) {
                let path = extend_path(prefix, i);
                out.push((id, path));
            }
            assert(anchors_view(out@) =~= before + here_found);
            if fuel > 0 {
                collect_children(nodes, &node.children, &here, discriminator, out, fuel - 1);
                assert(anchors_view(out@) =~= before + spec_collect(
                    nodes@,
                    i,
                    prefix@,
                    discriminator@,
                    fuel as nat,
                ));
            } else {
                assert(here_found =~= here_found + Seq::<(Seq<char>, Seq<usize>)>::empty());
            }
        },
    }
}

fn collect_children(
    nodes: &Vec<Option<SceneNode>>,
    cs: &Vec<usize>,
    prefix: &Vec<usize>,
    discriminator: &str,
    out: &mut Vec<(String, Vec<usize>)>,
    fuel: usize,
)
    ensures
        anchors_view(final(out)@) == anchors_view(old(out)@) + spec_collect_children(
            nodes@,
            cs@,
            prefix@,
            discriminator@,
            fuel as nat,
        ),
    decreases fuel, 1nat,
{
    let ghost start = anchors_view(out@);
    let mut k: usize = 0;
    assert(cs@.skip(0) =~= cs@);
    assert(start =~= start + Seq::<(Seq<char>, Seq<usize>)>::empty());
    while k < cs.len()
        invariant
            k <= cs@.len(),
            start + spec_collect_children(nodes@, cs@, prefix@, discriminator@, fuel as nat)
                == anchors_view(out@) + spec_collect_children(
                nodes@,
                cs@.skip(k as int),
                prefix@,
                discriminator@,
                fuel as nat,
            ),
        decreases cs@.len() - k,
    {
        assert(cs@.skip(k as int).drop_first() =~= cs@.skip(k + 1));
        assert(cs@.skip(k as int)[0] == cs@[k as int]);
        let ghost mid = anchors_view(out@);
        collect(nodes, cs[k], prefix, discriminator, out, fuel);
        let ghost one = spec_collect(nodes@, cs@[k as int], prefix@, discriminator@, fuel as nat);
        let ghost rest = spec_collect_children(nodes@, cs@.skip(k + 1), prefix@, discriminator@, fuel as nat);
        assert(mid + (one + rest) =~= (mid + one) + rest);
        k = k + 1;
    }
    assert(cs@.skip(k as int) =~= Seq::<usize>::empty());
    assert(anchors_view(out@) =~= anchors_view(out@) + Seq::<(Seq<char>, Seq<usize>)>::empty());
}

/// Every anchor in the level, in depth-first order over the scene roots,
/// each with its id and its chain of node indices from its scene root.
pub open spec fn spec_find_all_anchors(nodes: Seq<Option<SceneNode>>, d: Seq<char>) -> Seq<
    (Seq<char>, Seq<usize>),
> {
    spec_collect_children(nodes, spec_scene_roots(nodes), Seq::empty(), d, nodes.len())
}

/// Every anchor in the level, by id, with the chain of node indices that
/// places it relative to the stage root.
pub fn find_all_anchors(nodes: &Vec<Option<SceneNode>>, discriminator: &str) -> (r: Vec<
    (String, Vec<usize>),
>)
    ensures
        anchors_view(r@) == spec_find_all_anchors(nodes@, discriminator@),
{
    let mut found: Vec<(String, Vec<usize>)> = Vec::new();
    let roots = scene_roots(nodes);
    let top: Vec<usize> = Vec::new();
    assert(top@ =~= Seq::<usize>::empty());
    collect_children(nodes, &roots, &top, discriminator, &mut found, nodes.len());
    assert(anchors_view(Seq::<(String, Vec<usize>)>::empty()) =~= Seq::<(Seq<char>, Seq<usize>)>::empty());
    assert(anchors_view(found@) =~= spec_find_all_anchors(nodes@, discriminator@));
    found
}

proof fn lemma_collected_is_searchable(
    nodes: Seq<Option<SceneNode>>,
    i: usize,
    prefix: Seq<usize>,
    other: Seq<usize>,
    wanted: Seq<char>,
    d: Seq<char>,
    fuel: nat,
    k: int,
)
    requires
        0 <= k < spec_collect(nodes, i, prefix, d, fuel).len(),
        normalize(spec_collect(nodes, i, prefix, d, fuel)[k].0) == wanted,
    ensures
        spec_search(nodes, i, other, wanted, d, fuel) is Some,
    decreases fuel, 0nat,
{
    let node = nodes[i as int]->Some_0;
    let here = match spec_anchor_id_of(node.name@, extras_text(node.extras), d) {
        Some(id) => seq![(id, prefix.push(i))],
        None => Seq::<(Seq<char>, Seq<usize>)>::empty(),
    };
    if k < here.len() {
        assert(spec_node_matches(node, wanted, d));
    } else if !spec_node_matches(node, wanted, d) {
        let below = spec_collect_children(nodes, node.children@, prefix.push(i), d, (fuel - 1) as nat);
        assert(spec_collect(nodes, i, prefix, d, fuel) == here + below);
        assert(below[k - here.len()] == spec_collect(nodes, i, prefix, d, fuel)[k]);
        lemma_collected_children_searchable(
            nodes,
            node.children@,
            prefix.push(i),
            other.push(i),
            wanted,
            d,
            (fuel - 1) as nat,
            k - here.len(),
        );
    }
}

proof fn lemma_collected_children_searchable(
    nodes: Seq<Option<SceneNode>>,
    cs: Seq<usize>,
    prefix: Seq<usize>,
    other: Seq<usize>,
    wanted: Seq<char>,
    d: Seq<char>,
    fuel: nat,
    k: int,
)
    requires
        0 <= k < spec_collect_children(nodes, cs, prefix, d, fuel).len(),
        normalize(spec_collect_children(nodes, cs, prefix, d, fuel)[k].0) == wanted,
    ensures
        spec_search_children(nodes, cs, other, wanted, d, fuel) is Some,
    decreases fuel, cs.len(),
{
    let first = spec_collect(nodes, cs[0], prefix, d, fuel);
    let rest = spec_collect_children(nodes, cs.drop_first(), prefix, d, fuel);
    assert(spec_collect_children(nodes, cs, prefix, d, fuel) == first + rest);
    if k < first.len() {
        assert(first[k] == (first + rest)[k]);
        lemma_collected_is_searchable(nodes, cs[0], prefix, other, wanted, d, fuel, k);
    } else if spec_search(nodes, cs[0], other, wanted, d, fuel) is None {
        assert(rest[k - first.len()] == (first + rest)[k]);
        lemma_collected_children_searchable(nodes, cs.drop_first(), prefix, other, wanted, d, fuel, k - first.len());
    }
}

/// Every anchor that [`find_all_anchors`] lists, [`find_anchor`] finds
/// under its id.
pub proof fn law_listed_anchors_are_found(nodes: Seq<Option<SceneNode>>, d: Seq<char>, k: int)
    requires
        0 <= k < spec_find_all_anchors(nodes, d).len(),
    ensures
        spec_find_anchor(nodes, spec_find_all_anchors(nodes, d)[k].0, d) is Some,
{
    let id = spec_find_all_anchors(nodes, d)[k].0;
    lemma_collected_children_searchable(
        nodes,
        spec_scene_roots(nodes),
        Seq::empty(),
        Seq::empty(),
        normalize(id),
        d,
        nodes.len(),
        k,
    );
}

/// A ranking of the nodes under which every loaded node's children (those
/// in the list) rank below it, and every rank is below the number of nodes:
/// what a node graph without cycles, as glTF requires, has.
pub open spec fn ranked(nodes: Seq<Option<SceneNode>>, rank: spec_fn(usize) -> nat) -> bool {
    &&& forall|i: usize| (i as int) < nodes.len() ==> #[trigger] rank(i) < nodes.len()
    &&& forall|j: int, m: int|
        0 <= j < nodes.len() && nodes[j] is Some && 0 <= m < nodes[j]->Some_0.children@.len() && (
        nodes[j]->Some_0.children@[m] as int) < nodes.len() ==> rank(
            #[trigger] nodes[j]->Some_0.children@[m],
        ) < rank(j as usize)
}

/// Whether a depth bound of `f` lets a search reach everything below node
/// `i`.
pub open spec fn bound_reaches(nodes: Seq<Option<SceneNode>>, rank: spec_fn(usize) -> nat, i: usize, f: nat) -> bool {
    (i as int) >= nodes.len() || nodes[i as int] is None || rank(i) <= f
}

proof fn lemma_search_nowhere(
    nodes: Seq<Option<SceneNode>>,
    cs: Seq<usize>,
    prefix: Seq<usize>,
    wanted: Seq<char>,
    d: Seq<char>,
    f: nat,
)
    requires
        forall|k: int| 0 <= k < cs.len() ==> (#[trigger] cs[k] as int) >= nodes.len() || nodes[cs[k] as int] is None,
    ensures
        spec_search_children(nodes, cs, prefix, wanted, d, f) is None,
        spec_collect_children(nodes, cs, prefix, d, f) == Seq::<(Seq<char>, Seq<usize>)>::empty(),
    decreases cs.len(),
{
    if cs.len() > 0 {
        assert((cs[0] as int) >= nodes.len() || nodes[cs[0] as int] is None);
        assert forall|k: int| 0 <= k < cs.drop_first().len() implies (#[trigger] cs.drop_first()[k] as int)
            >= nodes.len() || nodes[cs.drop_first()[k] as int] is None by {
            assert(cs.drop_first()[k] == cs[k + 1]);
        }
        lemma_search_nowhere(nodes, cs.drop_first(), prefix, wanted, d, f);
        assert(spec_search(nodes, cs[0], prefix, wanted, d, f) is None);
        assert(spec_collect(nodes, cs[0], prefix, d, f) == Seq::<(Seq<char>, Seq<usize>)>::empty());
        assert(Seq::<(Seq<char>, Seq<usize>)>::empty() + Seq::<(Seq<char>, Seq<usize>)>::empty()
            =~= Seq::<(Seq<char>, Seq<usize>)>::empty());
    }
}

proof fn lemma_bound_enough(
    nodes: Seq<Option<SceneNode>>,
    rank: spec_fn(usize) -> nat,
    i: usize,
    prefix: Seq<usize>,
    wanted: Seq<char>,
    d: Seq<char>,
    f1: nat,
    f2: nat,
)
    requires
        ranked(nodes, rank),
        bound_reaches(nodes, rank, i, f1),
        bound_reaches(nodes, rank, i, f2),
    ensures
        spec_search(nodes, i, prefix, wanted, d, f1) == spec_search(nodes, i, prefix, wanted, d, f2),
        spec_collect(nodes, i, prefix, d, f1) == spec_collect(nodes, i, prefix, d, f2),
    decreases f1 + f2, 0nat,
{
    if (i as int) < nodes.len() && nodes[i as int] is Some {
        let node = nodes[i as int]->Some_0;
        let cs = node.children@;
        let here = prefix.push(i);
        if f1 == 0 || f2 == 0 {
            assert forall|k: int| 0 <= k < cs.len() implies (#[trigger] cs[k] as int) >= nodes.len()
                || nodes[cs[k] as int] is None by {
                if (cs[k] as int) < nodes.len() {
                    assert(rank(nodes[i as int]->Some_0.children@[k]) < rank(i));
                }
            }
            lemma_search_nowhere(nodes, cs, here, wanted, d, (f1 - 1) as nat);
            lemma_search_nowhere(nodes, cs, here, wanted, d, (f2 - 1) as nat);
            let found = match spec_anchor_id_of(node.name@, extras_text(node.extras), d) {
                Some(id) => seq![(id, here)],
                None => Seq::<(Seq<char>, Seq<usize>)>::empty(),
            };
            assert(found + Seq::<(Seq<char>, Seq<usize>)>::empty() =~= found);
        } else {
            assert forall|k: int| 0 <= k < cs.len() implies bound_reaches(
                nodes,
                rank,
                #[trigger] cs[k],
                (f1 - 1) as nat,
            ) && bound_reaches(nodes, rank, cs[k], (f2 - 1) as nat) by {
                if (cs[k] as int) < nodes.len() {
                    assert(rank(nodes[i as int]->Some_0.children@[k]) < rank(i));
                }
            }
            lemma_bound_enough_children(nodes, rank, cs, here, wanted, d, (f1 - 1) as nat, (f2 - 1) as nat);
        }
    }
}

proof fn lemma_bound_enough_children(
    nodes: Seq<Option<SceneNode>>,
    rank: spec_fn(usize) -> nat,
    cs: Seq<usize>,
    prefix: Seq<usize>,
    wanted: Seq<char>,
    d: Seq<char>,
    f1: nat,
    f2: nat,
)
    requires
        ranked(nodes, rank),
        forall|k: int|
            0 <= k < cs.len() ==> bound_reaches(nodes, rank, #[trigger] cs[k], f1) && bound_reaches(
                nodes,
                rank,
                cs[k],
                f2,
            ),
    ensures
        spec_search_children(nodes, cs, prefix, wanted, d, f1) == spec_search_children(
            nodes,
            cs,
            prefix,
            wanted,
            d,
            f2,
        ),
        spec_collect_children(nodes, cs, prefix, d, f1) == spec_collect_children(nodes, cs, prefix, d, f2),
    decreases f1 + f2, cs.len(),
{
    if cs.len() > 0 {
        assert(bound_reaches(nodes, rank, cs[0], f1) && bound_reaches(nodes, rank, cs[0], f2));
        lemma_bound_enough(nodes, rank, cs[0], prefix, wanted, d, f1, f2);
        assert forall|k: int| 0 <= k < cs.drop_first().len() implies bound_reaches(
            nodes,
            rank,
            #[trigger] cs.drop_first()[k],
            f1,
        ) && bound_reaches(nodes, rank, cs.drop_first()[k], f2) by {
            assert(cs.drop_first()[k] == cs[k + 1]);
        }
        lemma_bound_enough_children(nodes, rank, cs.drop_first(), prefix, wanted, d, f1, f2);
    }
}

/// On a node graph without cycles the scan's depth bound never cuts it
/// short: searching or listing with any deeper bound finds the same anchor
/// and lists the same anchors.
pub proof fn law_depth_bound_is_enough(
    nodes: Seq<Option<SceneNode>>,
    rank: spec_fn(usize) -> nat,
    anchor_id: Seq<char>,
    d: Seq<char>,
    fuel: nat,
)
    requires
        ranked(nodes, rank),
        fuel >= nodes.len(),
    ensures
        spec_search_children(nodes, spec_scene_roots(nodes), Seq::empty(), normalize(anchor_id), d, fuel)
            == spec_find_anchor(nodes, anchor_id, d),
        spec_collect_children(nodes, spec_scene_roots(nodes), Seq::empty(), d, fuel) == spec_find_all_anchors(
            nodes,
            d,
        ),
{
    let roots = spec_scene_roots(nodes);
    lemma_roots_below(nodes, nodes.len());
    assert forall|k: int| 0 <= k < roots.len() implies bound_reaches(nodes, rank, #[trigger] roots[k], fuel)
        && bound_reaches(nodes, rank, roots[k], nodes.len()) by {
        assert((roots[k] as int) < nodes.len());
        assert(rank(roots[k]) < nodes.len());
    }
    lemma_bound_enough_children(nodes, rank, roots, Seq::empty(), normalize(anchor_id), d, fuel, nodes.len());
}

proof fn lemma_roots_below(nodes: Seq<Option<SceneNode>>, k: nat)
    ensures
        forall|j: int| 0 <= j < roots_below(nodes, k).len() ==> (#[trigger] roots_below(nodes, k)[j] as int) < k,
    decreases k,
{
    if k > 0 {
        let prev = roots_below(nodes, (k - 1) as nat);
        lemma_roots_below(nodes, (k - 1) as nat);
        assert forall|j: int| 0 <= j < roots_below(nodes, k).len() implies (#[trigger] roots_below(
            nodes,
            k,
        )[j] as int) < k by {
            if j < prev.len() {
                assert(roots_below(nodes, k)[j] == prev[j]);
            }
        }
    }
}

} // verus!
