//! Keeping what is resident cheap to render: finding the LOD groups a level
//! declares by naming its nodes `Foo_LOD0`, `Foo_LOD1`, …
pub mod lod;

use vstd::prelude::*;

use crate::text::same_text;
use crate::view::lod::{parse_lod_name, spec_parse_lod_name};

verus! {

/// A node that has just appeared and might belong to a LOD group: its parent
/// (by id; `None` at the top of the world), its name and its entity.
pub struct LodCandidate<E> {
    pub parent: Option<u64>,
    pub name: String,
    pub entity: E,
}

/// What identifies a LOD group: the parent its members share and their base
/// name. `Rock_LOD0` under one parent is a different group from `Rock_LOD0`
/// under another.
pub open spec fn entry_key<E>(e: (Option<u64>, Seq<char>, usize, E)) -> (Option<u64>, Seq<char>) {
    (e.0, e.1)
}

/// The candidates whose names mark a level of detail, with parent, base
/// name, level and entity, in order.
pub open spec fn lod_entries<E>(c: Seq<LodCandidate<E>>) -> Seq<(Option<u64>, Seq<char>, usize, E)>
    decreases c.len(),
{
    if c.len() == 0 {
        Seq::empty()
    } else {
        let prev = lod_entries(c.drop_last());
        let x = c.last();
        match spec_parse_lod_name(x.name@) {
            Some(parsed) => prev.push((x.parent, parsed.0, parsed.1 as usize, x.entity)),
            None => prev,
        }
    }
}

/// The group keys, in order of first appearance, each once.
pub open spec fn group_keys<E>(e: Seq<(Option<u64>, Seq<char>, usize, E)>) -> Seq<(Option<u64>, Seq<char>)>
    decreases e.len(),
{
    if e.len() == 0 {
        Seq::empty()
    } else if group_keys(e.drop_last()).contains(entry_key(e.last())) {
        group_keys(e.drop_last())
    } else {
        group_keys(e.drop_last()).push(entry_key(e.last()))
    }
}

/// The members of the group with key `k`, as level and entity, in order.
pub open spec fn members_of<E>(e: Seq<(Option<u64>, Seq<char>, usize, E)>, k: (Option<u64>, Seq<char>)) -> Seq<
    (usize, E),
>
    decreases e.len(),
{
    if e.len() == 0 {
        Seq::empty()
    } else if entry_key(e.last()) == k {
        members_of(e.drop_last(), k).push((e.last().2, e.last().3))
    } else {
        members_of(e.drop_last(), k)
    }
}

/// `r` with `x` inserted after every member of a level no higher than its.
pub open spec fn insert_by_level<E>(r: Seq<(usize, E)>, x: (usize, E)) -> Seq<(usize, E)>
    decreases r.len(),
{
    if r.len() == 0 {
        seq![x]
    } else if r.last().0 <= x.0 {
        r.push(x)
    } else {
        insert_by_level(r.drop_last(), x).push(r.last())
    }
}

/// Members ordered by level, those of equal level kept in their order.
pub open spec fn sort_by_level<E>(s: Seq<(usize, E)>) -> Seq<(usize, E)>
    decreases s.len(),
{
    if s.len() == 0 {
        Seq::empty()
    } else {
        insert_by_level(sort_by_level(s.drop_last()), s.last())
    }
}

/// The groups among `keys` with at least two members, each with its members
/// ordered by level. A lone `Thing_LOD0` is not a LOD group.
pub open spec fn real_groups<E>(
    e: Seq<(Option<u64>, Seq<char>, usize, E)>,
    keys: Seq<(Option<u64>, Seq<char>)>,
) -> Seq<((Option<u64>, Seq<char>), Seq<(usize, E)>)>
    decreases keys.len(),
{
    if keys.len() == 0 {
        Seq::empty()
    } else if members_of(e, keys.last()).len() >= 2 {
        real_groups(e, keys.drop_last()).push((keys.last(), sort_by_level(members_of(e, keys.last()))))
    } else {
        real_groups(e, keys.drop_last())
    }
}

/// The LOD groups among some candidates, in order of first appearance.
pub open spec fn spec_lod_groups<E>(c: Seq<LodCandidate<E>>) -> Seq<((Option<u64>, Seq<char>), Seq<(usize, E)>)> {
    real_groups(lod_entries(c), group_keys(lod_entries(c)))
}

/// One LOD group: the parent its members share, their base name, and the
/// members, as level and entity, ordered by level.
#[derive(Debug)]
pub struct LodGroup<E> {
    pub parent: Option<u64>,
    pub base: String,
    pub members: Vec<(usize, E)>,
}

impl<E> View for LodGroup<E> {
    type V = ((Option<u64>, Seq<char>), Seq<(usize, E)>);

    open spec fn view(&self) -> ((Option<u64>, Seq<char>), Seq<(usize, E)>) {
        ((self.parent, self.base@), self.members@)
    }
}

/// The views of a list of groups.
pub open spec fn groups_view<E>(g: Seq<LodGroup<E>>) -> Seq<((Option<u64>, Seq<char>), Seq<(usize, E)>)> {
    g.map_values(|x: LodGroup<E>| x@)
}

/// Whether two parents are the same.
fn same_parent(a: Option<u64>, b: Option<u64>) -> (r: bool)
    ensures
        r == (a == b),
{
    match (a, b) {
        (None, None) => true,
        (Some(x), Some(y)) => x == y,
        _ => false,
    }
}

/// Insert `x` after every member of a level no higher than its.
fn insert_member<E: Copy>(r: &mut Vec<(usize, E)>, x: (usize, E))
    ensures
        final(r)@ == insert_by_level(old(r)@, x),
{
    let ghost r0 = r@;
    let mut j: usize = r.len();
    assert(r0.take(j as int) =~= r0);
    assert(r0 =~= r0 + r0.skip(j as int));
    while j > 0 && r[j - 1].0 > x.0
        invariant
            r@ == r0,
            j <= r0.len(),
            insert_by_level(r0, x) == insert_by_level(r0.take(j as int), x) + r0.skip(j as int),
        decreases j,
    {
        let ghost t = r0.take(j as int);
        assert(t.drop_last() =~= r0.take(j - 1));
        assert(t.last() == r0[j - 1]);
        assert(insert_by_level(t, x) == insert_by_level(r0.take(j - 1), x).push(r0[j - 1]));
        assert(insert_by_level(r0.take(j - 1), x).push(r0[j - 1]) + r0.skip(j as int) =~= insert_by_level(
            r0.take(j - 1),
            x,
        ) + r0.skip(j - 1));
        j = j - 1;
    }
    proof {
        if j == 0 {
            assert(r0.take(0) =~= Seq::<(usize, E)>::empty());
        } else {
            assert(r0.take(j as int).last() == r0[j - 1]);
        }
        assert(insert_by_level(r0.take(j as int), x) =~= r0.take(j as int).push(x));
    }
    r.insert(j, x);
    assert(r@ =~= r0.take(j as int).push(x) + r0.skip(j as int));
}

/// Order members by level, keeping those of equal level in their order.
fn sort_members<E: Copy>(s: &Vec<(usize, E)>) -> (r: Vec<(usize, E)>)
    ensures
        r@ == sort_by_level(s@),
{
    let mut r: Vec<(usize, E)> = Vec::new();
    let mut i: usize = 0;
    while i < s.len()
        invariant
            i <= s@.len(),
            r@ == sort_by_level(s@.take(i as int)),
        decreases s@.len() - i,
    {
        assert(s@.take(i + 1).drop_last() =~= s@.take(i as int));
        insert_member(&mut r, s[i]);
        i = i + 1;
    }
    assert(s@.take(i as int) =~= s@);
    r
}

/// Find the `Foo_LOD0`/`Foo_LOD1`/… sibling groups among newly appeared
/// nodes: members grouped by parent and base name, in order of first
/// appearance, each group ordered by level, lone members left out.
pub fn lod_groups<E: Copy>(candidates: &Vec<LodCandidate<E>>) -> (r: Vec<LodGroup<E>>)
    ensures
        groups_view(r@) == spec_lod_groups(candidates@),
{
    // The candidates that name a level of detail.
    let mut entries: Vec<(Option<u64>, String, usize, E)> = Vec::new();
    let mut i: usize = 0;
    while i < candidates.len()
        invariant
            i <= candidates@.len(),
            entries@.map_values(|e: (Option<u64>, String, usize, E)| (e.0, e.1@, e.2, e.3))
                == lod_entries(candidates@.take(i as int)),
        decreases candidates@.len() - i,
    {
        assert(candidates@.take(i + 1).drop_last() =~= candidates@.take(i as int));
        let c = &candidates[i];
        let ghost before = entries@;
        if let Some((base, level)) = parse_lod_name(c.name.as_str()) {
            entries.push((c.parent, base.to_owned(), level, c.entity));
            assert(entries@.map_values(|e: (Option<u64>, String, usize, E)| (e.0, e.1@, e.2, e.3))
                =~= before.map_values(|e: (Option<u64>, String, usize, E)| (e.0, e.1@, e.2, e.3)).push(
                (c.parent, base@, level, c.entity),
            ));
        }
        i = i + 1;
    }
    assert(candidates@.take(i as int) =~= candidates@);
    let ghost e = entries@.map_values(|x: (Option<u64>, String, usize, E)| (x.0, x.1@, x.2, x.3));
    // The group keys, in order of first appearance.
    let mut keys: Vec<(Option<u64>, String)> = Vec::new();
    let mut j: usize = 0;
    while j < entries.len()
        invariant
            j <= entries@.len(),
            e == entries@.map_values(|x: (Option<u64>, String, usize, E)| (x.0, x.1@, x.2, x.3)),
            keys@.map_values(|k: (Option<u64>, String)| (k.0, k.1@)) == group_keys(e.take(j as int)),
        decreases entries@.len() - j,
    {
        assert(e.take(j + 1).drop_last() =~= e.take(j as int));
        assert(e.take(j + 1).last() == e[j as int]);
        let ghost ks = keys@.map_values(|k: (Option<u64>, String)| (k.0, k.1@));
        let mut found = false;
        let mut g: usize = 0;
        while g < keys.len()
            invariant
                g <= keys@.len(),
                ks == keys@.map_values(|k: (Option<u64>, String)| (k.0, k.1@)),
                found == exists|h: int| 0 <= h < g && ks[h] == entry_key(e[j as int]),
                e == entries@.map_values(|x: (Option<u64>, String, usize, E)| (x.0, x.1@, x.2, x.3)),
                j < entries@.len(),
            decreases keys@.len() - g,
        {
            if !found && same_parent(keys[g].0, entries[j].0) && same_text(
                keys[g].1.as_str(),
                entries[j].1.as_str(),
            ) {
                found = true;
                assert(ks[g as int] == entry_key(e[j as int]));
            }
            proof {
                if !found && ks[g as int] == entry_key(e[j as int]) {
                    assert(keys@[g as int].0 == entries@[j as int].0);
                }
            }
            g = g + 1;
        }
        proof {
            if ks.contains(entry_key(e[j as int])) {
                let h = choose|h: int| 0 <= h < ks.len() && ks[h] == entry_key(e[j as int]);
                assert(found);
            }
        }
        if !found {
            let ghost before = keys@;
            keys.push((entries[j].0, entries[j].1.clone()));
            assert(keys@.map_values(|k: (Option<u64>, String)| (k.0, k.1@)) =~= before.map_values(
                |k: (Option<u64>, String)| (k.0, k.1@),
            ).push(entry_key(e[j as int])));
        }
        j = j + 1;
    }
    assert(e.take(j as int) =~= e);
    let ghost kseq = keys@.map_values(|k: (Option<u64>, String)| (k.0, k.1@));
    // Each key's members; groups of two or more, ordered by level.
    let mut groups: Vec<LodGroup<E>> = Vec::new();
    let mut g: usize = 0;
    while g < keys.len()
        invariant
            g <= keys@.len(),
            e == entries@.map_values(|x: (Option<u64>, String, usize, E)| (x.0, x.1@, x.2, x.3)),
            kseq == keys@.map_values(|k: (Option<u64>, String)| (k.0, k.1@)),
            groups_view(groups@) == real_groups(e, kseq.take(g as int)),
        decreases keys@.len() - g,
    {
        assert(kseq.take(g + 1).drop_last() =~= kseq.take(g as int));
        assert(kseq.take(g + 1).last() == kseq[g as int]);
        let ghost key = kseq[g as int];
        let mut members: Vec<(usize, E)> = Vec::new();
        let mut m: usize = 0;
        while m < entries.len()
            invariant
                m <= entries@.len(),
                g < keys@.len(),
                key == kseq[g as int],
                e == entries@.map_values(|x: (Option<u64>, String, usize, E)| (x.0, x.1@, x.2, x.3)),
                kseq == keys@.map_values(|k: (Option<u64>, String)| (k.0, k.1@)),
                members@ == members_of(e.take(m as int), key),
            decreases entries@.len() - m,
        {
            assert(e.take(m + 1).drop_last() =~= e.take(m as int));
            assert(e.take(m + 1).last() == e[m as int]);
            if same_parent(keys[g].0, entries[m].0) && same_text(keys[g].1.as_str(), entries[m].1.as_str()) {
                members.push((entries[m].2, entries[m].3));
            } else {
                proof {
                    if entry_key(e[m as int]) == key {
                        assert(keys@[g as int].0 == entries@[m as int].0);
                    }
                }
            }
            m = m + 1;
        }
        assert(e.take(m as int) =~= e);
        if members.len() >= 2 {
            let sorted = sort_members(&members);
            let ghost before = groups@;
            groups.push(LodGroup { parent: keys[g].0, base: keys[g].1.clone(), members: sorted });
            assert(groups_view(groups@) =~= groups_view(before).push((key, sort_by_level(members@))));
        }
        g = g + 1;
    }
    assert(kseq.take(g as int) =~= kseq);
    groups
}

/// Members ordered by level are in ascending order of level.
pub open spec fn levels_ascending<E>(s: Seq<(usize, E)>) -> bool {
    forall|a: int, b: int| 0 <= a < b < s.len() ==> #[trigger] s[a].0 <= #[trigger] s[b].0
}

proof fn lemma_insert_by_level<E>(r: Seq<(usize, E)>, x: (usize, E))
    requires
        levels_ascending(r),
    ensures
        levels_ascending(insert_by_level(r, x)),
        insert_by_level(r, x).to_multiset() == r.to_multiset().insert(x),
    decreases r.len(),
{
    broadcast use vstd::seq_lib::group_to_multiset_ensures;

    if r.len() == 0 {
        assert(seq![x] =~= Seq::<(usize, E)>::empty().push(x));
    } else if r.last().0 <= x.0 {
    } else {
        let p = r.drop_last();
        assert(levels_ascending(p)) by {
            assert forall|a: int, b: int| 0 <= a < b < p.len() implies #[trigger] p[a].0 <= #[trigger] p[b].0 by {
                assert(p[a] == r[a] && p[b] == r[b]);
            }
        }
        lemma_insert_by_level(p, x);
        let q = insert_by_level(p, x);
        assert(q.to_multiset() == p.to_multiset().insert(x));
        assert forall|a: int| 0 <= a < q.len() implies #[trigger] q[a].0 <= r.last().0 by {
            assert(q.to_multiset().count(q[a]) > 0);
            if q[a] == x {
            } else {
                assert(p.to_multiset().count(q[a]) > 0);
                let k = choose|k: int| 0 <= k < p.len() && p[k] == q[a];
                assert(r[k] == p[k]);
            }
        }
        assert(r =~= p.push(r.last()));
        assert(levels_ascending(q.push(r.last()))) by {
            let s = q.push(r.last());
            assert forall|a: int, b: int| 0 <= a < b < s.len() implies #[trigger] s[a].0 <= #[trigger] s[b].0 by {
                if b == s.len() - 1 {
                    assert(s[a] == q[a]);
                } else {
                    assert(s[a] == q[a] && s[b] == q[b]);
                }
            }
        }
    }
}

/// Ordering by level gives the same members, in ascending order of level.
pub proof fn lemma_sort_by_level<E>(s: Seq<(usize, E)>)
    ensures
        levels_ascending(sort_by_level(s)),
        sort_by_level(s).to_multiset() == s.to_multiset(),
    decreases s.len(),
{
    broadcast use vstd::seq_lib::group_to_multiset_ensures;

    if s.len() > 0 {
        lemma_sort_by_level(s.drop_last());
        lemma_insert_by_level(sort_by_level(s.drop_last()), s.last());
        assert(s =~= s.drop_last().push(s.last()));
    }
}

/// Every LOD group holds exactly the candidates that name a level of it —
/// the same parent and base name — at least two of them, in ascending order
/// of level.
pub proof fn law_lod_groups<E>(c: Seq<LodCandidate<E>>, g: int)
    requires
        0 <= g < spec_lod_groups(c).len(),
    ensures
        ({
            let (key, members) = spec_lod_groups(c)[g];
            &&& members.len() >= 2
            &&& levels_ascending(members)
            &&& members.to_multiset() == members_of(lod_entries(c), key).to_multiset()
        }),
{
    lemma_real_groups(lod_entries(c), group_keys(lod_entries(c)), g);
}

proof fn lemma_real_groups<E>(
    e: Seq<(Option<u64>, Seq<char>, usize, E)>,
    keys: Seq<(Option<u64>, Seq<char>)>,
    g: int,
)
    requires
        0 <= g < real_groups(e, keys).len(),
    ensures
        ({
            let (key, members) = real_groups(e, keys)[g];
            &&& members.len() >= 2
            &&& levels_ascending(members)
            &&& members.to_multiset() == members_of(e, key).to_multiset()
        }),
    decreases keys.len(),
{
    broadcast use vstd::seq_lib::group_to_multiset_ensures;

    let prev = real_groups(e, keys.drop_last());
    if g < prev.len() {
        lemma_real_groups(e, keys.drop_last(), g);
        if members_of(e, keys.last()).len() >= 2 {
            assert(real_groups(e, keys)[g] == prev[g]);
        }
    } else {
        let m = members_of(e, keys.last());
        lemma_sort_by_level(m);
        assert(sort_by_level(m).len() == m.len()) by {
            assert(sort_by_level(m).to_multiset().len() == m.to_multiset().len());
        }
    }
}

} // verus!
