use std::collections::HashMap;
use std::collections::HashSet;
use vstd::prelude::*;
use vstd::std_specs::iter::IteratorSpec;

use crate::guest::GuestId;
use crate::seq_lemmas::{lemma_take_last, lemma_push_drop_last, lemma_push_contains, lemma_drop_last_contains};

verus! {

broadcast use vstd::std_specs::hash::group_hash_axioms;

/// How strongly two guests are tied to each other.
#[derive(Clone, Copy, Debug, PartialEq, Eq, Hash, Structural)]
pub enum LinkType {
    Must,
    Should,
    Could,
    Wont,
}

/// The display label of a link kind.
pub open spec fn label_of(kind: LinkType) -> Seq<char> {
    match kind {
        LinkType::Must => "Must"@,
        LinkType::Should => "Should"@,
        LinkType::Could => "Could"@,
        LinkType::Wont => "Wont"@,
    }
}

impl LinkType {
    /// All link kinds, strongest first.
    pub fn variants() -> (r: &'static [LinkType])
        ensures
            r@ == seq![LinkType::Must, LinkType::Should, LinkType::Could, LinkType::Wont],
    {
        &[LinkType::Must, LinkType::Should, LinkType::Could, LinkType::Wont]
    }

    /// The kind's name as the screen shows it.
    pub fn label(&self) -> (r: &str)
        ensures
            r@ == label_of(*self),
    {
        match self {
            LinkType::Must => "Must",
            LinkType::Should => "Should",
            LinkType::Could => "Could",
            LinkType::Wont => "Wont",
        }
    }
}

/// A relationship between two guests.
#[derive(Clone, Debug)]
pub struct Constraint {
    pub a: GuestId,
    pub b: GuestId,
    pub kind: LinkType,
}

/// One entry of a guest's adjacency list: the other guest and the kind of link.
pub type Link = (GuestId, LinkType);

/// `c` links `x` and `y` (in either direction).
pub open spec fn joins(c: Constraint, x: GuestId, y: GuestId) -> bool {
    (c.a == x && c.b == y) || (c.a == y && c.b == x)
}

/// `c` has `x` as one of its ends.
pub open spec fn involves(c: Constraint, x: GuestId) -> bool {
    c.a == x || c.b == x
}

/// The end of `c` that is not `x`.
pub open spec fn other_end(c: Constraint, x: GuestId) -> GuestId {
    if c.a == x {
        c.b
    } else {
        c.a
    }
}

/// No constraint links a guest to itself, and no two constraints link the same pair.
pub open spec fn well_linked(cs: Seq<Constraint>) -> bool {
    &&& forall|i: int| 0 <= i < cs.len() ==> (#[trigger] cs[i]).a != cs[i].b
    &&& forall|i: int, j: int|
        0 <= i < j < cs.len() ==> !joins(#[trigger] cs[j], #[trigger] cs[i].a, cs[i].b)
}

/// `cs` without the constraints that link `x` and `y`, order kept.
pub open spec fn without_pair(cs: Seq<Constraint>, x: GuestId, y: GuestId) -> Seq<Constraint>
    decreases cs.len(),
{
    if cs.len() == 0 {
        cs
    } else {
        let rest = without_pair(cs.drop_last(), x, y);
        if joins(cs.last(), x, y) {
            rest
        } else {
            rest.push(cs.last())
        }
    }
}

/// `cs` without the constraints that involve `x`, order kept.
pub open spec fn without_guest(cs: Seq<Constraint>, x: GuestId) -> Seq<Constraint>
    decreases cs.len(),
{
    if cs.len() == 0 {
        cs
    } else {
        let rest = without_guest(cs.drop_last(), x);
        if involves(cs.last(), x) {
            rest
        } else {
            rest.push(cs.last())
        }
    }
}

/// The links of `x`, one per constraint that involves `x`, in the order of `cs`.
pub open spec fn adjacency(cs: Seq<Constraint>, x: GuestId) -> Seq<Link>
    decreases cs.len(),
{
    if cs.len() == 0 {
        Seq::empty()
    } else {
        let rest = adjacency(cs.drop_last(), x);
        let c = cs.last();
        if involves(c, x) {
            rest.push((other_end(c, x), c.kind))
        } else {
            rest
        }
    }
}

/// `adj` without the links to `y`, order kept.
pub open spec fn drop_links_to(adj: Seq<Link>, y: GuestId) -> Seq<Link>
    decreases adj.len(),
{
    if adj.len() == 0 {
        adj
    } else {
        let rest = drop_links_to(adj.drop_last(), y);
        if adj.last().0 == y {
            rest
        } else {
            rest.push(adj.last())
        }
    }
}

/// The kind of the constraint that links `x` and `y`, if there is one.
pub open spec fn pair_kind(cs: Seq<Constraint>, x: GuestId, y: GuestId) -> Option<LinkType> {
    if exists|i: int| 0 <= i < cs.len() && joins(#[trigger] cs[i], x, y) {
        Some(cs[choose|i: int| 0 <= i < cs.len() && joins(#[trigger] cs[i], x, y)].kind)
    } else {
        None
    }
}

/// Every guest that some constraint of `cs` involves.
pub open spec fn endpoints(cs: Seq<Constraint>) -> Set<GuestId> {
    Set::new(|x: GuestId| exists|i: int| 0 <= i < cs.len() && involves(#[trigger] cs[i], x))
}

/// Some Must constraint of `cs` links `x` and `y`.
pub open spec fn must_adjacent(cs: Seq<Constraint>, x: GuestId, y: GuestId) -> bool {
    exists|i: int| 0 <= i < cs.len() && (#[trigger] cs[i]).kind == LinkType::Must && joins(cs[i], x, y)
}

/// Nobody in `s` has a Must link to somebody outside `s`.
pub open spec fn must_closed(cs: Seq<Constraint>, s: Set<GuestId>) -> bool {
    forall|x: GuestId, y: GuestId| #[trigger] s.contains(x) && #[trigger] must_adjacent(cs, x, y) ==> s.contains(y)
}

/// `g` is the Must group of `start`: it holds `start`, is closed under Must links,
/// and lies within every such closed set, so it is exactly the guests that a
/// chain of Must links joins to `start`.
pub open spec fn is_must_group(cs: Seq<Constraint>, start: GuestId, g: Set<GuestId>) -> bool {
    &&& g.contains(start)
    &&& must_closed(cs, g)
    &&& forall|s: Set<GuestId>| #[trigger] must_closed(cs, s) && s.contains(start) ==> g.subset_of(s)
}

/// Each guest of `comp` after the first has a Must link with a guest before it: the
/// order in which a walk along Must links reaches them.
pub open spec fn grown_by_must_links(cs: Seq<Constraint>, comp: Seq<GuestId>) -> bool {
    forall|k: int|
        #![trigger comp[k]]
        0 < k < comp.len() ==> exists|j: int| 0 <= j < k && must_adjacent(cs, #[trigger] comp[j], comp[k])
}

/// The guests at the Must links of `adj` that `visited` does not hold, in order.
pub open spec fn must_unvisited(adj: Seq<Link>, visited: Set<GuestId>) -> Seq<GuestId>
    decreases adj.len(),
{
    if adj.len() == 0 {
        Seq::empty()
    } else {
        let rest = must_unvisited(adj.drop_last(), visited);
        if adj.last().1 == LinkType::Must && !visited.contains(adj.last().0) {
            rest.push(adj.last().0)
        } else {
            rest
        }
    }
}

/// One step of the depth-first walk along Must links over a state (visited guests,
/// stack, group so far): the guest on top of the stack is taken off; unless visited
/// already, it is visited, added to the group, and its unvisited Must partners are
/// pushed in the order of its links.
pub open spec fn walk_step(
    cs: Seq<Constraint>,
    s: (Set<GuestId>, Seq<GuestId>, Seq<GuestId>),
) -> (Set<GuestId>, Seq<GuestId>, Seq<GuestId>) {
    let cur = s.1.last();
    let st = s.1.drop_last();
    if s.0.contains(cur) {
        (s.0, st, s.2)
    } else {
        let v = s.0.insert(cur);
        (v, st + must_unvisited(adjacency(cs, cur), v), s.2.push(cur))
    }
}

/// `trace` is a run of the walk, step by step, until the stack is empty.
pub open spec fn is_walk(cs: Seq<Constraint>, trace: Seq<(Set<GuestId>, Seq<GuestId>, Seq<GuestId>)>) -> bool {
    &&& trace.len() > 0
    &&& forall|i: int|
        0 <= i < trace.len() - 1 ==> (#[trigger] trace[i]).1.len() > 0 && trace[i + 1] == walk_step(cs, trace[i])
    &&& trace.last().1.len() == 0
}

/// `comp` is the group that the walk from `start` lists when the guests of `before`
/// are visited already.
pub open spec fn walked_group(cs: Seq<Constraint>, before: Set<GuestId>, start: GuestId, comp: Seq<GuestId>) -> bool {
    exists|trace: Seq<(Set<GuestId>, Seq<GuestId>, Seq<GuestId>)>|
        #[trigger] is_walk(cs, trace) && trace[0] == (before, seq![start], Seq::<GuestId>::empty()) && trace.last().2
            == comp
}

proof fn lemma_walks_agree(
    cs: Seq<Constraint>,
    t1: Seq<(Set<GuestId>, Seq<GuestId>, Seq<GuestId>)>,
    t2: Seq<(Set<GuestId>, Seq<GuestId>, Seq<GuestId>)>,
    k: int,
)
    requires
        is_walk(cs, t1),
        is_walk(cs, t2),
        t1[0] == t2[0],
        0 <= k < t1.len(),
        k < t2.len(),
    ensures
        t1[k] == t2[k],
    decreases k,
{
    if k > 0 {
        lemma_walks_agree(cs, t1, t2, k - 1);
        assert(t1[k - 1 + 1] == walk_step(cs, t1[k - 1]));
        assert(t2[k - 1 + 1] == walk_step(cs, t2[k - 1]));
    }
}

/// The walk is determined by where it starts: a start gives one group.
pub proof fn lemma_walked_group_unique(
    cs: Seq<Constraint>,
    before: Set<GuestId>,
    start: GuestId,
    c1: Seq<GuestId>,
    c2: Seq<GuestId>,
)
    requires
        walked_group(cs, before, start, c1),
        walked_group(cs, before, start, c2),
    ensures
        c1 == c2,
{
    let t1 = choose|t: Seq<(Set<GuestId>, Seq<GuestId>, Seq<GuestId>)>|
        #[trigger] is_walk(cs, t) && t[0] == (before, seq![start], Seq::<GuestId>::empty()) && t.last().2 == c1;
    let t2 = choose|t: Seq<(Set<GuestId>, Seq<GuestId>, Seq<GuestId>)>|
        #[trigger] is_walk(cs, t) && t[0] == (before, seq![start], Seq::<GuestId>::empty()) && t.last().2 == c2;
    if t1.len() < t2.len() {
        lemma_walks_agree(cs, t1, t2, t1.len() - 1);
        assert(t2[t1.len() - 1].1.len() > 0);
    } else if t2.len() < t1.len() {
        lemma_walks_agree(cs, t1, t2, t2.len() - 1);
        assert(t1[t2.len() - 1].1.len() > 0);
    } else {
        lemma_walks_agree(cs, t1, t2, t1.len() - 1);
    }
}

/// The guests of the groups before group `c`.
pub open spec fn groups_before(comps: Seq<Seq<GuestId>>, c: int) -> Set<GuestId> {
    Set::new(|x: GuestId| exists|d: int| 0 <= d < c && #[trigger] comps[d].contains(x))
}

/// Guest `y` has a Must link with some guest of `comp`.
pub open spec fn linked_to_some(cs: Seq<Constraint>, comp: Seq<GuestId>, y: GuestId) -> bool {
    exists|m: int| 0 <= m < comp.len() && #[trigger] must_adjacent(cs, comp[m], y)
}

/// `comps` lists the Must groups of `members`: each group once, each guest in exactly
/// one group, each group led by one of its guests and without repeats.
pub open spec fn is_must_partition(cs: Seq<Constraint>, members: Set<GuestId>, comps: Seq<Seq<GuestId>>) -> bool {
    &&& forall|i: int|
        0 <= i < comps.len() ==> (#[trigger] comps[i]).len() > 0 && comps[i].no_duplicates()
            && is_must_group(cs, comps[i][0], comps[i].to_set())
    &&& forall|i: int, j: int, x: GuestId|
        0 <= i < comps.len() && 0 <= j < comps.len() && i != j && #[trigger] comps[i].contains(x)
            ==> !#[trigger] comps[j].contains(x)
    &&& forall|x: GuestId|
        #[trigger] members.contains(x) <==> exists|i: int| 0 <= i < comps.len() && #[trigger] comps[i].contains(x)
}

// ---------------------------------------------------------------- lemmas

proof fn lemma_without_pair_contains(cs: Seq<Constraint>, x: GuestId, y: GuestId)
    ensures
        forall|c: Constraint| #[trigger] without_pair(cs, x, y).contains(c) <==> (cs.contains(c) && !joins(c, x, y)),
    decreases cs.len(),
{
    if cs.len() > 0 {
        lemma_without_pair_contains(cs.drop_last(), x, y);
        lemma_drop_last_contains(cs);
        lemma_push_contains(without_pair(cs.drop_last(), x, y), cs.last());
    }
}

proof fn lemma_without_guest_contains(cs: Seq<Constraint>, x: GuestId)
    ensures
        forall|c: Constraint| #[trigger] without_guest(cs, x).contains(c) <==> (cs.contains(c) && !involves(c, x)),
    decreases cs.len(),
{
    if cs.len() > 0 {
        lemma_without_guest_contains(cs.drop_last(), x);
        lemma_drop_last_contains(cs);
        lemma_push_contains(without_guest(cs.drop_last(), x), cs.last());
    }
}

/// Pushing a constraint that clashes with nothing keeps a sequence well linked.
proof fn lemma_well_linked_push(rest: Seq<Constraint>, c: Constraint)
    requires
        well_linked(rest),
        c.a != c.b,
        forall|e: Constraint| rest.contains(e) ==> !joins(c, e.a, e.b),
    ensures
        well_linked(rest.push(c)),
{
    let s = rest.push(c);
    assert forall|i: int, j: int| 0 <= i < j < s.len() implies !joins(#[trigger] s[j], #[trigger] s[i].a, s[i].b) by {
        if j == rest.len() {
            assert(rest.contains(rest[i]));
        } else {
            assert(s[j] == rest[j] && s[i] == rest[i]);
        }
    }
    assert forall|i: int| 0 <= i < s.len() implies (#[trigger] s[i]).a != s[i].b by {
        if i < rest.len() {
            assert(s[i] == rest[i]);
        }
    }
}

/// The last constraint of a well-linked sequence clashes with none before it.
proof fn lemma_well_linked_last(cs: Seq<Constraint>)
    requires
        well_linked(cs),
        cs.len() > 0,
    ensures
        well_linked(cs.drop_last()),
        forall|e: Constraint| cs.drop_last().contains(e) ==> !joins(cs.last(), e.a, e.b),
        cs.last().a != cs.last().b,
{
    let d = cs.drop_last();
    assert forall|i: int, j: int| 0 <= i < j < d.len() implies !joins(#[trigger] d[j], #[trigger] d[i].a, d[i].b) by {
        assert(d[j] == cs[j] && d[i] == cs[i]);
    }
    assert forall|i: int| 0 <= i < d.len() implies (#[trigger] d[i]).a != d[i].b by {
        assert(d[i] == cs[i]);
    }
    assert forall|e: Constraint| d.contains(e) implies !joins(cs.last(), e.a, e.b) by {
        let i = choose|i: int| 0 <= i < d.len() && d[i] == e;
        assert(cs[i] == e);
        assert(!joins(cs[cs.len() - 1], cs[i].a, cs[i].b));
    }
    assert(cs[cs.len() - 1].a != cs[cs.len() - 1].b);
}

proof fn lemma_without_pair_well_linked(cs: Seq<Constraint>, x: GuestId, y: GuestId)
    requires
        well_linked(cs),
    ensures
        well_linked(without_pair(cs, x, y)),
    decreases cs.len(),
{
    if cs.len() > 0 {
        lemma_well_linked_last(cs);
        lemma_without_pair_well_linked(cs.drop_last(), x, y);
        lemma_without_pair_contains(cs.drop_last(), x, y);
        if !joins(cs.last(), x, y) {
            lemma_well_linked_push(without_pair(cs.drop_last(), x, y), cs.last());
        }
    }
}

proof fn lemma_without_guest_well_linked(cs: Seq<Constraint>, x: GuestId)
    requires
        well_linked(cs),
    ensures
        well_linked(without_guest(cs, x)),
    decreases cs.len(),
{
    if cs.len() > 0 {
        lemma_well_linked_last(cs);
        lemma_without_guest_well_linked(cs.drop_last(), x);
        lemma_without_guest_contains(cs.drop_last(), x);
        if !involves(cs.last(), x) {
            lemma_well_linked_push(without_guest(cs.drop_last(), x), cs.last());
        }
    }
}

proof fn lemma_adjacency_push(cs: Seq<Constraint>, c: Constraint, z: GuestId)
    ensures
        adjacency(cs.push(c), z) == (if involves(c, z) {
            adjacency(cs, z).push((other_end(c, z), c.kind))
        } else {
            adjacency(cs, z)
        }),
{
    lemma_push_drop_last(cs, c);
}

proof fn lemma_drop_links_push(adj: Seq<Link>, e: Link, y: GuestId)
    ensures
        drop_links_to(adj.push(e), y) == (if e.0 == y {
            drop_links_to(adj, y)
        } else {
            drop_links_to(adj, y).push(e)
        }),
{
    lemma_push_drop_last(adj, e);
}

/// A guest that no constraint involves has no links.
pub proof fn lemma_adjacency_untouched(cs: Seq<Constraint>, z: GuestId)
    requires
        forall|i: int| 0 <= i < cs.len() ==> !involves(#[trigger] cs[i], z),
    ensures
        adjacency(cs, z) == Seq::<Link>::empty(),
    decreases cs.len(),
{
    if cs.len() > 0 {
        assert forall|i: int| 0 <= i < cs.drop_last().len() implies !involves(#[trigger] cs.drop_last()[i], z) by {
            assert(cs.drop_last()[i] == cs[i]);
        }
        lemma_adjacency_untouched(cs.drop_last(), z);
        assert(!involves(cs[cs.len() - 1], z));
    }
}

/// Dropping the pair `x`-`y` from the constraints drops exactly the links between them.
proof fn lemma_adjacency_without_pair(cs: Seq<Constraint>, x: GuestId, y: GuestId, z: GuestId)
    requires
        x != y,
    ensures
        adjacency(without_pair(cs, x, y), z) == (if z == x {
            drop_links_to(adjacency(cs, x), y)
        } else if z == y {
            drop_links_to(adjacency(cs, y), x)
        } else {
            adjacency(cs, z)
        }),
    decreases cs.len(),
{
    if cs.len() > 0 {
        let l = cs.last();
        let rest = cs.drop_last();
        lemma_adjacency_without_pair(rest, x, y, z);
        if !joins(l, x, y) {
            lemma_adjacency_push(without_pair(rest, x, y), l, z);
        }
        if z == x || z == y {
            if involves(l, z) {
                lemma_drop_links_push(adjacency(rest, z), (other_end(l, z), l.kind), if z == x { y } else { x });
            }
        }
    }
}

/// Dropping a guest's constraints drops exactly the links to that guest.
proof fn lemma_adjacency_without_guest(cs: Seq<Constraint>, x: GuestId, z: GuestId)
    requires
        x != z,
    ensures
        adjacency(without_guest(cs, x), z) == drop_links_to(adjacency(cs, z), x),
    decreases cs.len(),
{
    if cs.len() > 0 {
        let l = cs.last();
        let rest = cs.drop_last();
        lemma_adjacency_without_guest(rest, x, z);
        if !involves(l, x) {
            lemma_adjacency_push(without_guest(rest, x), l, z);
        }
        if involves(l, z) {
            lemma_drop_links_push(adjacency(rest, z), (other_end(l, z), l.kind), x);
        }
    }
}

/// With no self links, removing the "pair" `x`-`x` changes nothing.
proof fn lemma_self_pair_noop(cs: Seq<Constraint>, x: GuestId)
    requires
        forall|i: int| 0 <= i < cs.len() ==> (#[trigger] cs[i]).a != cs[i].b,
    ensures
        without_pair(cs, x, x) == cs,
        drop_links_to(adjacency(cs, x), x) == adjacency(cs, x),
    decreases cs.len(),
{
    if cs.len() > 0 {
        let rest = cs.drop_last();
        assert forall|i: int| 0 <= i < rest.len() implies (#[trigger] rest[i]).a != rest[i].b by {
            assert(rest[i] == cs[i]);
        }
        lemma_self_pair_noop(rest, x);
        assert(cs[cs.len() - 1].a != cs[cs.len() - 1].b);
        assert(rest.push(cs.last()) =~= cs);
        if involves(cs.last(), x) {
            lemma_drop_links_push(adjacency(rest, x), (other_end(cs.last(), x), cs.last().kind), x);
        }
    }
}

/// `e` is the link that some constraint of `cs` gives `x`.
pub open spec fn link_from(cs: Seq<Constraint>, x: GuestId, e: Link) -> bool {
    exists|i: int| 0 <= i < cs.len() && involves(#[trigger] cs[i], x) && e == (other_end(cs[i], x), cs[i].kind)
}

/// Every link of `x` comes from a constraint that involves `x`.
proof fn lemma_adjacency_sound(cs: Seq<Constraint>, x: GuestId)
    ensures
        forall|j: int| 0 <= j < adjacency(cs, x).len() ==> link_from(cs, x, #[trigger] adjacency(cs, x)[j]),
    decreases cs.len(),
{
    if cs.len() > 0 {
        let rest = cs.drop_last();
        lemma_adjacency_sound(rest, x);
        let adj = adjacency(cs, x);
        assert forall|j: int| 0 <= j < adj.len() implies link_from(cs, x, #[trigger] adj[j]) by {
            if j < adjacency(rest, x).len() {
                assert(adj[j] == adjacency(rest, x)[j]);
                assert(link_from(rest, x, adjacency(rest, x)[j]));
                let i = choose|i: int|
                    0 <= i < rest.len() && involves(#[trigger] rest[i], x) && adjacency(rest, x)[j] == (
                    other_end(rest[i], x),
                    rest[i].kind,
                );
                assert(cs[i] == rest[i]);
            } else {
                let k = cs.len() - 1;
                assert(cs[k] == cs.last());
            }
        }
    }
}

/// Every constraint that involves `x` shows up among the links of `x`.
proof fn lemma_adjacency_complete(cs: Seq<Constraint>, x: GuestId)
    ensures
        forall|i: int|
            0 <= i < cs.len() && involves(#[trigger] cs[i], x) ==> adjacency(cs, x).contains(
                (other_end(cs[i], x), cs[i].kind),
            ),
    decreases cs.len(),
{
    if cs.len() > 0 {
        let rest = cs.drop_last();
        lemma_adjacency_complete(rest, x);
        let adj = adjacency(cs, x);
        assert forall|i: int| 0 <= i < cs.len() && involves(#[trigger] cs[i], x) implies adj.contains(
            (other_end(cs[i], x), cs[i].kind),
        ) by {
            if i < rest.len() {
                assert(rest[i] == cs[i]);
                lemma_push_contains(adjacency(rest, x), (other_end(cs.last(), x), cs.last().kind));
            } else {
                assert(adj[adj.len() - 1] == (other_end(cs[i], x), cs[i].kind));
            }
        }
    }
}

/// In a well-linked sequence a pair is joined by at most one constraint.
pub proof fn lemma_pair_kind_at(cs: Seq<Constraint>, x: GuestId, y: GuestId, i: int)
    requires
        well_linked(cs),
        0 <= i < cs.len(),
        joins(cs[i], x, y),
    ensures
        pair_kind(cs, x, y) == Some(cs[i].kind),
{
    let j = choose|j: int| 0 <= j < cs.len() && joins(#[trigger] cs[j], x, y);
    if j < i {
        assert(!joins(cs[i], cs[j].a, cs[j].b));
    } else if i < j {
        assert(!joins(cs[j], cs[i].a, cs[i].b));
    }
}

/// In a well-linked sequence the links of `x` are exactly its constraints: each link
/// names the kind of the constraint with that guest, and each constraint shows up.
pub proof fn lemma_adjacency_kinds(cs: Seq<Constraint>, x: GuestId)
    requires
        well_linked(cs),
    ensures
        forall|j: int|
            0 <= j < adjacency(cs, x).len() ==> pair_kind(cs, x, (#[trigger] adjacency(cs, x)[j]).0) == Some(
                adjacency(cs, x)[j].1,
            ),
        forall|n: GuestId|
            #[trigger] pair_kind(cs, x, n) is Some ==> adjacency(cs, x).contains((n, pair_kind(cs, x, n)->0)),
{
    let adj = adjacency(cs, x);
    lemma_adjacency_sound(cs, x);
    lemma_adjacency_complete(cs, x);
    assert forall|j: int| 0 <= j < adj.len() implies pair_kind(cs, x, (#[trigger] adj[j]).0) == Some(adj[j].1) by {
        assert(link_from(cs, x, adj[j]));
        let i = choose|i: int| 0 <= i < cs.len() && involves(#[trigger] cs[i], x) && adj[j] == (other_end(cs[i], x), cs[i].kind);
        lemma_pair_kind_at(cs, x, adj[j].0, i);
    }
    assert forall|n: GuestId| #[trigger] pair_kind(cs, x, n) is Some implies adj.contains((n, pair_kind(cs, x, n)->0)) by {
        let i = choose|i: int| 0 <= i < cs.len() && joins(#[trigger] cs[i], x, n);
        assert(cs[i].a != cs[i].b);
        assert(involves(cs[i], x));
        assert(other_end(cs[i], x) == n);
    }
}

/// Must links go both ways.
pub proof fn lemma_must_adjacent_sym(cs: Seq<Constraint>, x: GuestId, y: GuestId)
    requires
        must_adjacent(cs, x, y),
    ensures
        must_adjacent(cs, y, x),
{
    let i = choose|i: int| 0 <= i < cs.len() && (#[trigger] cs[i]).kind == LinkType::Must && joins(cs[i], x, y);
    assert(joins(cs[i], y, x));
}

/// Every guest of a Must group has that same group: the groups are the classes of
/// guests joined by chains of Must links.
pub proof fn lemma_must_group_same(cs: Seq<Constraint>, start: GuestId, g: Set<GuestId>, x: GuestId, h: Set<GuestId>)
    requires
        is_must_group(cs, start, g),
        g.contains(x),
        is_must_group(cs, x, h),
    ensures
        g == h,
{
    // h lies within g, since g is closed and holds x
    assert(h.subset_of(g));
    // what of g lies outside h is closed too, so it cannot hold start
    let rest = g.difference(h);
    assert forall|u: GuestId, v: GuestId| #[trigger] rest.contains(u) && #[trigger] must_adjacent(cs, u, v) implies rest.contains(v) by {
        assert(g.contains(v));
        if h.contains(v) {
            lemma_must_adjacent_sym(cs, u, v);
            assert(h.contains(u));
        }
    }
    if !h.contains(start) {
        assert(must_closed(cs, rest) && rest.contains(start));
        assert(g.subset_of(rest));
        assert(false);
    }
    assert(must_closed(cs, h) && h.contains(start));
    assert(g.subset_of(h));
    assert(g =~= h);
}

/// In a well-linked sequence the kind of a pair is that of the constraint in the
/// sequence that joins it, and there is none when no constraint joins it.
proof fn lemma_pair_kind_contains(cs: Seq<Constraint>, x: GuestId, y: GuestId)
    requires
        well_linked(cs),
    ensures
        forall|c: Constraint| #[trigger] cs.contains(c) && joins(c, x, y) ==> pair_kind(cs, x, y) == Some(c.kind),
        (forall|c: Constraint| #[trigger] cs.contains(c) ==> !joins(c, x, y)) ==> pair_kind(cs, x, y) is None,
{
    assert forall|c: Constraint| #[trigger] cs.contains(c) && joins(c, x, y) implies pair_kind(cs, x, y) == Some(c.kind) by {
        let i = choose|i: int| 0 <= i < cs.len() && cs[i] == c;
        lemma_pair_kind_at(cs, x, y, i);
    }
    if forall|c: Constraint| #[trigger] cs.contains(c) ==> !joins(c, x, y) {
        assert forall|i: int| 0 <= i < cs.len() implies !joins(#[trigger] cs[i], x, y) by {
            assert(cs.contains(cs[i]));
        }
    }
}

/// A pair's kind does not depend on the order in which the pair is named.
pub proof fn lemma_pair_kind_symmetric(cs: Seq<Constraint>, x: GuestId, y: GuestId)
    requires
        well_linked(cs),
    ensures
        pair_kind(cs, x, y) == pair_kind(cs, y, x),
{
    lemma_pair_kind_contains(cs, x, y);
    lemma_pair_kind_contains(cs, y, x);
    if exists|i: int| 0 <= i < cs.len() && joins(#[trigger] cs[i], x, y) {
        let i = choose|i: int| 0 <= i < cs.len() && joins(#[trigger] cs[i], x, y);
        assert(cs.contains(cs[i]));
        assert(joins(cs[i], y, x));
    } else {
        assert forall|c: Constraint| #[trigger] cs.contains(c) implies !joins(c, y, x) by {
            let i = choose|i: int| 0 <= i < cs.len() && cs[i] == c;
        }
        assert forall|c: Constraint| #[trigger] cs.contains(c) implies !joins(c, x, y) by {
            let i = choose|i: int| 0 <= i < cs.len() && cs[i] == c;
        }
    }
}

/// What a read gives back after a link is added: the new kind for the pair, named
/// either way round, and the old answer for every other pair.
pub proof fn lemma_add_then_get(cs: Seq<Constraint>, a: GuestId, b: GuestId, kind: LinkType, x: GuestId, y: GuestId)
    requires
        well_linked(cs),
        a != b,
    ensures
        pair_kind(without_pair(cs, a, b).push(Constraint { a, b, kind }), a, b) == Some(kind),
        pair_kind(without_pair(cs, a, b).push(Constraint { a, b, kind }), b, a) == Some(kind),
        !((x == a && y == b) || (x == b && y == a)) ==> pair_kind(
            without_pair(cs, a, b).push(Constraint { a, b, kind }),
            x,
            y,
        ) == pair_kind(cs, x, y),
{
    let c = Constraint { a, b, kind };
    let wp = without_pair(cs, a, b);
    let after = wp.push(c);
    lemma_without_pair_well_linked(cs, a, b);
    lemma_without_pair_contains(cs, a, b);
    lemma_well_linked_push(wp, c);
    lemma_push_contains(wp, c);
    lemma_pair_kind_contains(after, a, b);
    lemma_pair_kind_contains(after, b, a);
    assert(after.contains(c)) by {
        assert(after[wp.len() as int] == c);
    }
    if !((x == a && y == b) || (x == b && y == a)) {
        lemma_pair_kind_contains(after, x, y);
        lemma_pair_kind_contains(cs, x, y);
        if exists|i: int| 0 <= i < cs.len() && joins(#[trigger] cs[i], x, y) {
            let i = choose|i: int| 0 <= i < cs.len() && joins(#[trigger] cs[i], x, y);
            assert(cs.contains(cs[i]));
            assert(after.contains(cs[i]));
        } else {
            assert forall|e: Constraint| #[trigger] after.contains(e) implies !joins(e, x, y) by {
                if e != c {
                    assert(cs.contains(e));
                    let i = choose|i: int| 0 <= i < cs.len() && cs[i] == e;
                }
            }
        }
    }
}

/// After a pair is unlinked a read gives nothing for it and the old answer for every
/// other pair.
pub proof fn lemma_remove_then_get(cs: Seq<Constraint>, a: GuestId, b: GuestId, x: GuestId, y: GuestId)
    requires
        well_linked(cs),
    ensures
        pair_kind(without_pair(cs, a, b), a, b) is None,
        pair_kind(without_pair(cs, a, b), b, a) is None,
        !((x == a && y == b) || (x == b && y == a)) ==> pair_kind(without_pair(cs, a, b), x, y) == pair_kind(cs, x, y),
{
    let wp = without_pair(cs, a, b);
    lemma_without_pair_well_linked(cs, a, b);
    lemma_without_pair_contains(cs, a, b);
    lemma_pair_kind_contains(wp, a, b);
    lemma_pair_kind_contains(wp, b, a);
    if !((x == a && y == b) || (x == b && y == a)) {
        lemma_pair_kind_contains(wp, x, y);
        lemma_pair_kind_contains(cs, x, y);
        if exists|i: int| 0 <= i < cs.len() && joins(#[trigger] cs[i], x, y) {
            let i = choose|i: int| 0 <= i < cs.len() && joins(#[trigger] cs[i], x, y);
            assert(cs.contains(cs[i]));
            assert(wp.contains(cs[i]));
        } else {
            assert forall|e: Constraint| #[trigger] wp.contains(e) implies !joins(e, x, y) by {
                let i = choose|i: int| 0 <= i < cs.len() && cs[i] == e;
            }
        }
    }
}

/// Once a guest is removed no pair with it has a kind, it has no links, and every
/// other pair keeps its kind.
pub proof fn lemma_remove_guest_then_get(cs: Seq<Constraint>, id: GuestId, x: GuestId, y: GuestId)
    requires
        well_linked(cs),
    ensures
        pair_kind(without_guest(cs, id), id, x) is None,
        pair_kind(without_guest(cs, id), x, id) is None,
        adjacency(without_guest(cs, id), id) == Seq::<Link>::empty(),
        x != id && y != id ==> pair_kind(without_guest(cs, id), x, y) == pair_kind(cs, x, y),
{
    let wg = without_guest(cs, id);
    lemma_without_guest_well_linked(cs, id);
    lemma_without_guest_contains(cs, id);
    lemma_pair_kind_contains(wg, id, x);
    lemma_pair_kind_contains(wg, x, id);
    assert forall|i: int| 0 <= i < wg.len() implies !involves(#[trigger] wg[i], id) by {
        assert(wg.contains(wg[i]));
    }
    lemma_adjacency_untouched(wg, id);
    if x != id && y != id {
        lemma_pair_kind_contains(wg, x, y);
        lemma_pair_kind_contains(cs, x, y);
        if exists|i: int| 0 <= i < cs.len() && joins(#[trigger] cs[i], x, y) {
            let i = choose|i: int| 0 <= i < cs.len() && joins(#[trigger] cs[i], x, y);
            assert(cs.contains(cs[i]));
            assert(wg.contains(cs[i]));
        } else {
            assert forall|e: Constraint| #[trigger] wg.contains(e) implies !joins(e, x, y) by {
                let i = choose|i: int| 0 <= i < cs.len() && cs[i] == e;
            }
        }
    }
}

/// In a well-linked sequence no guest shows up twice among the links of `x`.
pub proof fn lemma_adjacency_distinct(cs: Seq<Constraint>, x: GuestId)
    requires
        well_linked(cs),
    ensures
        forall|i: int, j: int|
            0 <= i < j < adjacency(cs, x).len() ==> (#[trigger] adjacency(cs, x)[i]).0 != (
            #[trigger] adjacency(cs, x)[j]).0,
    decreases cs.len(),
{
    if cs.len() > 0 {
        let rest = cs.drop_last();
        lemma_well_linked_last(cs);
        lemma_adjacency_distinct(rest, x);
        lemma_adjacency_sound(rest, x);
        let adj = adjacency(cs, x);
        let ar = adjacency(rest, x);
        let c = cs.last();
        assert forall|i: int, j: int| 0 <= i < j < adj.len() implies (#[trigger] adj[i]).0 != (#[trigger] adj[j]).0 by {
            if j < ar.len() {
                assert(adj[i] == ar[i] && adj[j] == ar[j]);
            } else {
                assert(involves(c, x));
                assert(adj[i] == ar[i]);
                assert(link_from(rest, x, ar[i]));
                let k = choose|k: int| 0 <= k < rest.len() && involves(#[trigger] rest[k], x) && ar[i] == (
                    other_end(rest[k], x),
                    rest[k].kind,
                );
                assert(rest.contains(rest[k]));
                assert(!joins(c, rest[k].a, rest[k].b));
            }
        }
    }
}

/// `path` is a chain of Must links, each guest to the next.
pub open spec fn must_path(cs: Seq<Constraint>, path: Seq<GuestId>) -> bool {
    &&& path.len() > 0
    &&& forall|i: int| 0 <= i < path.len() - 1 ==> must_adjacent(cs, #[trigger] path[i], path[i + 1])
}

/// A chain of Must links joins `x` to `y` (a guest is joined to itself).
pub open spec fn must_linked(cs: Seq<Constraint>, x: GuestId, y: GuestId) -> bool {
    exists|path: Seq<GuestId>| #[trigger] must_path(cs, path) && path[0] == x && path.last() == y
}

/// In a well-linked sequence a Must link is what `pair_kind` reads as Must.
pub proof fn lemma_must_adjacent_kind(cs: Seq<Constraint>, x: GuestId, y: GuestId)
    requires
        well_linked(cs),
    ensures
        must_adjacent(cs, x, y) <==> pair_kind(cs, x, y) == Some(LinkType::Must),
{
    if must_adjacent(cs, x, y) {
        let i = choose|i: int| 0 <= i < cs.len() && (#[trigger] cs[i]).kind == LinkType::Must && joins(cs[i], x, y);
        lemma_pair_kind_at(cs, x, y, i);
    }
    if pair_kind(cs, x, y) == Some(LinkType::Must) {
        let i = choose|i: int| 0 <= i < cs.len() && joins(#[trigger] cs[i], x, y);
        assert(cs[i].kind == LinkType::Must);
    }
}

proof fn lemma_path_in_closed(cs: Seq<Constraint>, s: Set<GuestId>, path: Seq<GuestId>, k: int)
    requires
        must_closed(cs, s),
        must_path(cs, path),
        s.contains(path[0]),
        0 <= k < path.len(),
    ensures
        s.contains(path[k]),
    decreases k,
{
    if k > 0 {
        lemma_path_in_closed(cs, s, path, k - 1);
        assert(must_adjacent(cs, path[k - 1], path[k]));
    }
}

proof fn lemma_path_push(cs: Seq<Constraint>, path: Seq<GuestId>, y: GuestId)
    requires
        must_path(cs, path),
        must_adjacent(cs, path.last(), y),
    ensures
        must_path(cs, path.push(y)),
{
    let p = path.push(y);
    assert forall|i: int| 0 <= i < p.len() - 1 implies must_adjacent(cs, #[trigger] p[i], p[i + 1]) by {
        if i < path.len() - 1 {
            assert(p[i] == path[i] && p[i + 1] == path[i + 1]);
        }
    }
}

/// Chains of Must links go both ways and join end to end.
pub proof fn lemma_must_linked_laws(cs: Seq<Constraint>, x: GuestId, y: GuestId, z: GuestId)
    ensures
        must_linked(cs, x, x),
        must_linked(cs, x, y) ==> must_linked(cs, y, x),
        must_linked(cs, x, y) && must_linked(cs, y, z) ==> must_linked(cs, x, z),
{
    assert(must_path(cs, seq![x]));
    if must_linked(cs, x, y) {
        let p = choose|p: Seq<GuestId>| #[trigger] must_path(cs, p) && p[0] == x && p.last() == y;
        let r = Seq::new(p.len(), |k: int| p[p.len() - 1 - k]);
        assert forall|i: int| 0 <= i < r.len() - 1 implies must_adjacent(cs, #[trigger] r[i], r[i + 1]) by {
            let k = p.len() - 2 - i;
            assert(must_adjacent(cs, p[k], p[k + 1]));
            lemma_must_adjacent_sym(cs, p[k], p[k + 1]);
        }
        assert(must_path(cs, r) && r[0] == y && r.last() == x);
        if must_linked(cs, y, z) {
            let q = choose|q: Seq<GuestId>| #[trigger] must_path(cs, q) && q[0] == y && q.last() == z;
            let pq = p + q.drop_first();
            assert forall|i: int| 0 <= i < pq.len() - 1 implies must_adjacent(cs, #[trigger] pq[i], pq[i + 1]) by {
                if i < p.len() - 1 {
                    assert(pq[i] == p[i] && pq[i + 1] == p[i + 1]);
                } else if i == p.len() - 1 {
                    assert(pq[i] == y && q[0] == y);
                    assert(pq[i + 1] == q[1]);
                    assert(must_adjacent(cs, q[0], q[1]));
                } else {
                    let k = i - p.len() + 1;
                    assert(pq[i] == q[k] && pq[i + 1] == q[k + 1]);
                }
            }
            if q.len() == 1 {
                assert(pq =~= p);
            } else {
                assert(pq.last() == q.last());
            }
            assert(must_path(cs, pq) && pq[0] == x && pq.last() == z);
        }
    }
}

/// A Must group is exactly the guests that a chain of Must links joins to its first
/// guest.
pub proof fn lemma_must_group_chain(cs: Seq<Constraint>, start: GuestId, g: Set<GuestId>, y: GuestId)
    requires
        is_must_group(cs, start, g),
    ensures
        g.contains(y) <==> must_linked(cs, start, y),
{
    if must_linked(cs, start, y) {
        let p = choose|p: Seq<GuestId>| #[trigger] must_path(cs, p) && p[0] == start && p.last() == y;
        lemma_path_in_closed(cs, g, p, p.len() - 1);
    }
    let reach = Set::new(|z: GuestId| must_linked(cs, start, z));
    lemma_must_linked_laws(cs, start, start, start);
    assert forall|u: GuestId, v: GuestId| #[trigger] reach.contains(u) && #[trigger] must_adjacent(cs, u, v) implies reach.contains(v) by {
        let p = choose|p: Seq<GuestId>| #[trigger] must_path(cs, p) && p[0] == start && p.last() == u;
        lemma_path_push(cs, p, v);
        assert(p.push(v)[0] == start);
    }
    assert(must_closed(cs, reach) && reach.contains(start));
    assert(g.subset_of(reach));
}

/// Two guests of the Must groups listed by `comps` share a group exactly when a chain
/// of Must links joins them.
pub proof fn lemma_same_group_iff_linked(
    cs: Seq<Constraint>,
    members: Set<GuestId>,
    comps: Seq<Seq<GuestId>>,
    i: int,
    j: int,
    x: GuestId,
    y: GuestId,
)
    requires
        is_must_partition(cs, members, comps),
        0 <= i < comps.len(),
        0 <= j < comps.len(),
        comps[i].contains(x),
        comps[j].contains(y),
    ensures
        i == j <==> must_linked(cs, x, y),
{
    let start = comps[i][0];
    let gi = comps[i].to_set();
    assert(is_must_group(cs, start, gi));
    assert(gi.contains(x));
    lemma_must_group_chain(cs, start, gi, x);
    lemma_must_group_chain(cs, start, gi, y);
    lemma_must_linked_laws(cs, start, x, y);
    lemma_must_linked_laws(cs, x, start, y);
    if i == j {
        assert(gi.contains(y));
    } else {
        assert(!comps[i].contains(y));
        assert(!gi.contains(y));
    }
}

// ---------------------------------------------------------------- exec helpers

fn keep_unjoined(cs: &Vec<Constraint>, x: GuestId, y: GuestId) -> (r: Vec<Constraint>)
    ensures
        r@ == without_pair(cs@, x, y),
{
    let mut r: Vec<Constraint> = Vec::new();
    let mut i: usize = 0;
    while i < cs.len()
        invariant
            i <= cs.len(),
            r@ == without_pair(cs@.take(i as int), x, y),
        decreases cs.len() - i,
    {
        proof {
            lemma_take_last(cs@, i as int);
        }
        let c = &cs[i];
        if !((c.a == x && c.b == y) || (c.a == y && c.b == x)) {
            r.push(Constraint { a: c.a, b: c.b, kind: c.kind });
        }
        i += 1;
    }
    proof {
        assert(cs@.take(cs.len() as int) =~= cs@);
    }
    r
}

fn keep_uninvolved(cs: &Vec<Constraint>, x: GuestId) -> (r: Vec<Constraint>)
    ensures
        r@ == without_guest(cs@, x),
{
    let mut r: Vec<Constraint> = Vec::new();
    let mut i: usize = 0;
    while i < cs.len()
        invariant
            i <= cs.len(),
            r@ == without_guest(cs@.take(i as int), x),
        decreases cs.len() - i,
    {
        proof {
            lemma_take_last(cs@, i as int);
        }
        let c = &cs[i];
        if c.a != x && c.b != x {
            r.push(Constraint { a: c.a, b: c.b, kind: c.kind });
        }
        i += 1;
    }
    proof {
        assert(cs@.take(cs.len() as int) =~= cs@);
    }
    r
}

fn keep_links_not_to(adj: &Vec<Link>, y: GuestId) -> (r: Vec<Link>)
    ensures
        r@ == drop_links_to(adj@, y),
{
    let mut r: Vec<Link> = Vec::new();
    let mut i: usize = 0;
    while i < adj.len()
        invariant
            i <= adj.len(),
            r@ == drop_links_to(adj@.take(i as int), y),
        decreases adj.len() - i,
    {
        proof {
            lemma_take_last(adj@, i as int);
        }
        let (other, kind) = adj[i];
        if other != y {
            r.push((other, kind));
        }
        i += 1;
    }
    proof {
        assert(adj@.take(adj.len() as int) =~= adj@);
    }
    r
}

fn copy_links(adj: &Vec<Link>) -> (r: Vec<Link>)
    ensures
        r@ == adj@,
{
    let mut r: Vec<Link> = Vec::new();
    let mut i: usize = 0;
    while i < adj.len()
        invariant
            i <= adj.len(),
            r@ == adj@.take(i as int),
        decreases adj.len() - i,
    {
        proof {
            lemma_take_last(adj@, i as int);
        }
        r.push(adj[i]);
        i += 1;
    }
    proof {
        assert(adj@.take(adj.len() as int) =~= adj@);
    }
    r
}

/// A walk extended by one step is still a walk prefix from the same start.
proof fn lemma_walk_extend(
    cs: Seq<Constraint>,
    trace: Seq<(Set<GuestId>, Seq<GuestId>, Seq<GuestId>)>,
    next: (Set<GuestId>, Seq<GuestId>, Seq<GuestId>),
)
    requires
        trace.len() > 0,
        forall|k: int|
            0 <= k < trace.len() - 1 ==> (#[trigger] trace[k]).1.len() > 0 && trace[k + 1] == walk_step(cs, trace[k]),
        trace.last().1.len() > 0,
        next == walk_step(cs, trace.last()),
    ensures
        trace.push(next)[0] == trace[0],
        trace.push(next).last() == next,
        forall|k: int|
            0 <= k < trace.push(next).len() - 1 ==> (#[trigger] trace.push(next)[k]).1.len() > 0 && trace.push(next)[k
                + 1] == walk_step(cs, trace.push(next)[k]),
{
    let t = trace.push(next);
    assert forall|k: int| 0 <= k < t.len() - 1 implies (#[trigger] t[k]).1.len() > 0 && t[k + 1] == walk_step(cs, t[k]) by {
        if k < trace.len() - 1 {
            assert(t[k] == trace[k] && t[k + 1] == trace[k + 1]);
        } else {
            assert(t[k] == trace.last());
        }
    }
}

/// The groups before `c` are the same once another group follows the last.
proof fn lemma_groups_before_push(views: Seq<Seq<GuestId>>, x: Seq<GuestId>, c: int)
    requires
        0 <= c <= views.len(),
    ensures
        groups_before(views.push(x), c) == groups_before(views, c),
{
    assert forall|y: GuestId| groups_before(views.push(x), c).contains(y) <==> groups_before(views, c).contains(y) by {
        if groups_before(views.push(x), c).contains(y) {
            let d = choose|d: int| 0 <= d < c && #[trigger] views.push(x)[d].contains(y);
            assert(views.push(x)[d] == views[d]);
        }
        if groups_before(views, c).contains(y) {
            let d = choose|d: int| 0 <= d < c && #[trigger] views[d].contains(y);
            assert(views.push(x)[d] == views[d]);
        }
    }
    assert(groups_before(views.push(x), c) =~= groups_before(views, c));
}

/// Takes the link list of `x` out of the map (none when `x` has no list).
fn take_links(edges: &mut HashMap<GuestId, Vec<Link>>, x: GuestId) -> (r: Vec<Link>)
    ensures
        final(edges)@ == old(edges)@.remove(x),
        r@ == (if old(edges)@.contains_key(x) {
            old(edges)@[x]@
        } else {
            Seq::<Link>::empty()
        }),
{
    match edges.remove(&x) {
        Some(v) => v,
        None => Vec::new(),
    }
}

/// The guests that have a link list, each once, in the map's own order.
fn member_list(edges: &HashMap<GuestId, Vec<Link>>) -> (r: Vec<GuestId>)
    ensures
        r@.to_set() == edges@.dom(),
        r@.no_duplicates(),
{
    let mut r: Vec<GuestId> = Vec::new();
    let ghost keys = vstd::std_specs::hash::spec_keys_iter(edges).remaining();
    proof {
        vstd::std_specs::hash::axiom_spec_keys_iter(edges);
    }
    for k in it: edges.keys()
        invariant
            it.seq() == keys,
            r@.len() == it.index(),
            forall|j: int| 0 <= j < it.index() ==> r@[j] == *it.seq()[j],
    {
        r.push(*k);
    }
    proof {
        assert(r@ =~= keys.unref());
    }
    r
}

/// A copy of `cs`, constraint by constraint.
fn copy_constraints(cs: &Vec<Constraint>) -> (r: Vec<Constraint>)
    ensures
        r@ == cs@,
{
    let mut r: Vec<Constraint> = Vec::new();
    let mut i: usize = 0;
    while i < cs.len()
        invariant
            i <= cs.len(),
            r@ == cs@.take(i as int),
        decreases cs.len() - i,
    {
        r.push(Constraint { a: cs[i].a, b: cs[i].b, kind: cs[i].kind });
        i += 1;
        proof {
            assert(r@ =~= cs@.take(i as int));
        }
    }
    proof {
        assert(cs@.take(cs.len() as int) =~= cs@);
    }
    r
}

/// A copy of the link lists, guest by guest.
fn copy_edges(edges: &HashMap<GuestId, Vec<Link>>) -> (r: HashMap<GuestId, Vec<Link>>)
    ensures
        r@.dom() == edges@.dom(),
        forall|k: GuestId| #[trigger] r@.contains_key(k) ==> r@[k]@ == edges@[k]@,
{
    let keys = member_list(edges);
    let mut r: HashMap<GuestId, Vec<Link>> = HashMap::new();
    let mut i: usize = 0;
    while i < keys.len()
        invariant
            i <= keys.len(),
            keys@.to_set() == edges@.dom(),
            r@.dom() == keys@.take(i as int).to_set(),
            forall|k: GuestId| #[trigger] r@.contains_key(k) ==> r@[k]@ == edges@[k]@,
        decreases keys.len() - i,
    {
        let k = keys[i];
        proof {
            assert(keys@.to_set().contains(k));
        }
        match edges.get(&k) {
            Some(adj) => {
                r.insert(k, copy_links(adj));
            },
            None => {},
        }
        i += 1;
        proof {
            lemma_take_last(keys@, i - 1);
            lemma_push_contains(keys@.take(i - 1), k);
            assert(r@.dom() =~= keys@.take(i as int).to_set());
        }
    }
    proof {
        assert(keys@.take(keys.len() as int) =~= keys@);
    }
    r
}

/// Who is tied to whom: the constraints in the order they were made, and for each
/// guest that was ever named in one, the list of its links.
#[derive(Debug)]
pub struct ConstraintGraph {
    edges: HashMap<GuestId, Vec<Link>>,
    constraints: Vec<Constraint>,
}

impl Clone for ConstraintGraph {
    fn clone(&self) -> (r: Self)
        ensures
            r.links() == self.links(),
            r.members() == self.members(),
    {
        self.duplicate()
    }
}

impl ConstraintGraph {
    /// The graph's internal consistency: each guest's link list is exactly what the
    /// constraints give it, every end of a constraint has a link list, and the
    /// constraints are well linked.
    #[verifier::type_invariant]
    pub closed spec fn wf(&self) -> bool {
        &&& forall|k: GuestId| #[trigger]
            self.edges@.contains_key(k) ==> self.edges@[k]@ == adjacency(self.constraints@, k)
        &&& forall|i: int|
            0 <= i < self.constraints@.len() ==> self.edges@.contains_key((#[trigger] self.constraints@[i]).a)
                && self.edges@.contains_key(self.constraints@[i].b)
        &&& well_linked(self.constraints@)
    }

    /// The guests that have a link list (possibly empty).
    pub closed spec fn members(&self) -> Set<GuestId> {
        self.edges@.dom()
    }

    /// The constraints, oldest first.
    pub closed spec fn links(&self) -> Seq<Constraint> {
        self.constraints@
    }

    /// What a well-formed graph guarantees to its users.
    pub proof fn lemma_wf(&self)
        requires
            self.wf(),
        ensures
            well_linked(self.links()),
            self.members().finite(),
            forall|i: int|
                0 <= i < self.links().len() ==> self.members().contains((#[trigger] self.links()[i]).a)
                    && self.members().contains(self.links()[i].b),
    {
    }

    /// A copy of the graph: the same constraints and the same link lists.
    pub fn duplicate(&self) -> (r: Self)
        ensures
            r.links() == self.links(),
            r.members() == self.members(),
    {
        proof {
            use_type_invariant(self);
        }
        let edges = copy_edges(&self.edges);
        let constraints = copy_constraints(&self.constraints);
        ConstraintGraph { edges, constraints }
    }

    /// A graph without constraints.
    pub fn new() -> (g: Self)
        ensures
            g.wf(),
            g.members() == Set::<GuestId>::empty(),
            g.links() == Seq::<Constraint>::empty(),
    {
        let g = ConstraintGraph { edges: HashMap::new(), constraints: Vec::new() };
        assert(g.edges@.dom() =~= Set::<GuestId>::empty());
        g
    }

    /// The links of `x` as recorded, or none when `x` has no list.
    proof fn lemma_links_or_empty(&self, x: GuestId)
        requires
            self.wf(),
        ensures
            (if self.edges@.contains_key(x) {
                self.edges@[x]@
            } else {
                Seq::<Link>::empty()
            }) == adjacency(self.constraints@, x),
    {
        if !self.edges@.contains_key(x) {
            assert forall|i: int| 0 <= i < self.constraints@.len() implies !involves(
                #[trigger] self.constraints@[i],
                x,
            ) by {}
            lemma_adjacency_untouched(self.constraints@, x);
        }
    }

    /// Records that `a` and `b` are linked by `kind`, replacing any earlier
    /// constraint between them. A guest cannot be linked to itself.
    pub fn add(&mut self, a: GuestId, b: GuestId, kind: LinkType)
        ensures
            a == b ==> final(self).members() == old(self).members() && final(self).links()
                == old(self).links(),
            a != b ==> final(self).members() == old(self).members().insert(a).insert(b)
                && final(self).links() == without_pair(old(self).links(), a, b).push(
                Constraint { a, b, kind },
            ),
    {
        proof {
            use_type_invariant(&*self);
        }
        if a == b {
            return;
        }
        let ghost cs0 = self.constraints@;
        let ghost e0 = self.edges@;
        proof {
            self.lemma_links_or_empty(a);
            self.lemma_links_or_empty(b);
            lemma_without_pair_well_linked(cs0, a, b);
            lemma_without_pair_contains(cs0, a, b);
        }
        let mut taken = ConstraintGraph::new();
        std::mem::swap(&mut taken, self);
        let ConstraintGraph { mut edges, mut constraints } = taken;
        let kept = keep_unjoined(&constraints, a, b);
        constraints = kept;
        let la = take_links(&mut edges, a);
        let la = keep_links_not_to(&la, b);
        edges.insert(a, la);
        let lb = take_links(&mut edges, b);
        let lb = keep_links_not_to(&lb, a);
        edges.insert(b, lb);
        constraints.push(Constraint { a, b, kind });
        let mut la = take_links(&mut edges, a);
        la.push((b, kind));
        edges.insert(a, la);
        let mut lb = take_links(&mut edges, b);
        lb.push((a, kind));
        edges.insert(b, lb);
        proof {
            let c = Constraint { a, b, kind };
            let wp = without_pair(cs0, a, b);
            assert(constraints@ == wp.push(c));
            assert forall|e: Constraint| wp.contains(e) implies !joins(c, e.a, e.b) by {}
            lemma_well_linked_push(wp, c);
            assert forall|k: GuestId| #[trigger]
                edges@.contains_key(k) implies edges@[k]@ == adjacency(constraints@, k) by {
                lemma_adjacency_push(wp, c, k);
                lemma_adjacency_without_pair(cs0, a, b, k);
            }
            assert forall|i: int| 0 <= i < constraints@.len() implies edges@.contains_key(
                (#[trigger] constraints@[i]).a,
            ) && edges@.contains_key(constraints@[i].b) by {
                if i < wp.len() {
                    assert(wp.contains(wp[i]));
                    let j = choose|j: int| 0 <= j < cs0.len() && cs0[j] == wp[i];
                    assert(e0.contains_key(cs0[j].a));
                }
            }
            assert(edges@.dom() =~= e0.dom().insert(a).insert(b));
        }
        *self = ConstraintGraph { edges, constraints };
    }

    /// Forgets any constraint between `a` and `b`.
    pub fn remove(&mut self, a: GuestId, b: GuestId)
        ensures
            final(self).members() == old(self).members().insert(a).insert(b),
            final(self).links() == without_pair(old(self).links(), a, b),
    {
        proof {
            use_type_invariant(&*self);
        }
        let ghost cs0 = self.constraints@;
        let ghost e0 = self.edges@;
        proof {
            self.lemma_links_or_empty(a);
            self.lemma_links_or_empty(b);
            lemma_without_pair_well_linked(cs0, a, b);
            lemma_without_pair_contains(cs0, a, b);
            if a == b {
                lemma_self_pair_noop(cs0, a);
            }
        }
        let mut taken = ConstraintGraph::new();
        std::mem::swap(&mut taken, self);
        let ConstraintGraph { mut edges, mut constraints } = taken;
        let kept = keep_unjoined(&constraints, a, b);
        constraints = kept;
        let la = take_links(&mut edges, a);
        let la = keep_links_not_to(&la, b);
        edges.insert(a, la);
        let lb = take_links(&mut edges, b);
        let lb = keep_links_not_to(&lb, a);
        edges.insert(b, lb);
        proof {
            let wp = without_pair(cs0, a, b);
            assert forall|k: GuestId| #[trigger]
                edges@.contains_key(k) implies edges@[k]@ == adjacency(constraints@, k) by {
                if a != b {
                    lemma_adjacency_without_pair(cs0, a, b, k);
                }
            }
            assert forall|i: int| 0 <= i < constraints@.len() implies edges@.contains_key(
                (#[trigger] constraints@[i]).a,
            ) && edges@.contains_key(constraints@[i].b) by {
                assert(wp.contains(wp[i]));
                let j = choose|j: int| 0 <= j < cs0.len() && cs0[j] == wp[i];
                assert(e0.contains_key(cs0[j].a));
            }
            assert(edges@.dom() =~= e0.dom().insert(a).insert(b));
        }
        *self = ConstraintGraph { edges, constraints };
    }

    /// Forgets `id` and every constraint that involves it.
    pub fn remove_guest(&mut self, id: GuestId)
        ensures
            final(self).members() == old(self).members().remove(id),
            final(self).links() == without_guest(old(self).links(), id),
    {
        proof {
            use_type_invariant(&*self);
        }
        let ghost cs0 = self.constraints@;
        let ghost e0 = self.edges@;
        proof {
            lemma_without_guest_well_linked(cs0, id);
            lemma_without_guest_contains(cs0, id);
        }
        let mut taken = ConstraintGraph::new();
        std::mem::swap(&mut taken, self);
        let ConstraintGraph { mut edges, mut constraints } = taken;
        let kept = keep_uninvolved(&constraints, id);
        constraints = kept;
        edges.remove(&id);
        let keys = member_list(&edges);
        let mut i: usize = 0;
        while i < keys.len()
            invariant
                i <= keys.len(),
                constraints@ == without_guest(cs0, id),
                edges@.dom() == e0.dom().remove(id),
                keys@.to_set() == e0.dom().remove(id),
                keys@.no_duplicates(),
                forall|k: GuestId| #[trigger]
                    edges@.contains_key(k) ==> edges@[k]@ == (if keys@.take(i as int).contains(k) {
                        drop_links_to(adjacency(cs0, k), id)
                    } else {
                        adjacency(cs0, k)
                    }),
                forall|k: GuestId| #[trigger] e0.contains_key(k) ==> e0[k]@ == adjacency(cs0, k),
            decreases keys.len() - i,
        {
            let k = keys[i];
            proof {
                lemma_take_last(keys@, i as int);
                lemma_push_contains(keys@.take(i as int), k);
                assert(keys@.to_set().contains(k));
                if keys@.take(i as int).contains(k) {
                    let j = choose|j: int| 0 <= j < i && keys@.take(i as int)[j] == k;
                    assert(keys@[j] == keys@[i as int]);
                }
            }
            let l = take_links(&mut edges, k);
            let l = keep_links_not_to(&l, id);
            edges.insert(k, l);
            i += 1;
            proof {
                assert(edges@.dom() =~= e0.dom().remove(id));
            }
        }
        proof {
            assert(keys@.take(keys.len() as int) =~= keys@);
            assert forall|k: GuestId| #[trigger]
                edges@.contains_key(k) implies edges@[k]@ == adjacency(constraints@, k) by {
                assert(keys@.to_set().contains(k));
                lemma_adjacency_without_guest(cs0, id, k);
            }
            assert forall|i: int| 0 <= i < constraints@.len() implies edges@.contains_key(
                (#[trigger] constraints@[i]).a,
            ) && edges@.contains_key(constraints@[i].b) by {
                let wg = without_guest(cs0, id);
                assert(wg.contains(wg[i]));
                let j = choose|j: int| 0 <= j < cs0.len() && cs0[j] == wg[i];
                assert(e0.contains_key(cs0[j].a));
            }
        }
        *self = ConstraintGraph { edges, constraints };
    }

    /// The kind of the constraint between `a` and `b`, if any.
    pub fn get(&self, a: GuestId, b: GuestId) -> (r: Option<LinkType>)
        ensures
            r == pair_kind(self.links(), a, b),
    {
        proof {
            use_type_invariant(self);
        }
        let ghost cs = self.constraints@;
        match self.edges.get(&a) {
            None => {
                proof {
                    if exists|i: int| 0 <= i < cs.len() && joins(#[trigger] cs[i], a, b) {
                        let i = choose|i: int| 0 <= i < cs.len() && joins(#[trigger] cs[i], a, b);
                        assert(self.edges@.contains_key(cs[i].a));
                    }
                }
                None
            },
            Some(adj) => {
                let mut i: usize = 0;
                while i < adj.len()
                    invariant
                        i <= adj.len(),
                        adj@ == adjacency(cs, a),
                        cs == self.constraints@,
                        well_linked(cs),
                        forall|j: int| 0 <= j < i ==> (#[trigger] adj@[j]).0 != b,
                    decreases adj.len() - i,
                {
                    if adj[i].0 == b {
                        let kind = adj[i].1;
                        proof {
                            lemma_adjacency_sound(cs, a);
                            assert(link_from(cs, a, adj@[i as int]));
                            let k = choose|k: int|
                                0 <= k < cs.len() && involves(#[trigger] cs[k], a) && adj@[i as int] == (
                                other_end(cs[k], a),
                                cs[k].kind,
                            );
                            lemma_pair_kind_at(cs, a, b, k);
                            assert(pair_kind(cs, a, b) == Some(adj@[i as int].1));
                            assert(pair_kind(self.links(), a, b) == Some(kind));
                        }
                        return Some(kind);
                    }
                    i += 1;
                }
                proof {
                    lemma_adjacency_complete(cs, a);
                    if exists|k: int| 0 <= k < cs.len() && joins(#[trigger] cs[k], a, b) {
                        let k = choose|k: int| 0 <= k < cs.len() && joins(#[trigger] cs[k], a, b);
                        assert(involves(cs[k], a));
                        assert(cs[k].a != cs[k].b);
                        assert(adj@.contains((other_end(cs[k], a), cs[k].kind)));
                        let j = choose|j: int| 0 <= j < adj@.len() && adj@[j] == (other_end(cs[k], a), cs[k].kind);
                        assert(adj@[j].0 != b);
                    }
                }
                None
            },
        }
    }

    /// The links of `id`, one per constraint that involves it, oldest first.
    pub fn neighbors(&self, id: GuestId) -> (r: Vec<Link>)
        ensures
            r@ == adjacency(self.links(), id),
    {
        proof {
            use_type_invariant(self);
        }
        proof {
            self.lemma_links_or_empty(id);
        }
        match self.edges.get(&id) {
            Some(adj) => copy_links(adj),
            None => Vec::new(),
        }
    }

    /// The constraints, oldest first.
    pub fn all_constraints(&self) -> (r: &[Constraint])
        ensures
            r@ == self.links(),
    {
        self.constraints.as_slice()
    }

    /// Rebuilds every link list from the constraints; guests that no constraint
    /// names lose their (empty) list.
    pub fn rebuild_edges(&mut self)
        ensures
            final(self).links() == old(self).links(),
            final(self).members() == endpoints(old(self).links()),
    {
        proof {
            use_type_invariant(&*self);
        }
        let ghost cs = self.constraints@;
        let mut taken = ConstraintGraph::new();
        std::mem::swap(&mut taken, self);
        let ConstraintGraph { mut edges, mut constraints } = taken;
        edges.clear();
        let mut i: usize = 0;
        while i < constraints.len()
            invariant
                i <= cs.len(),
                constraints@ == cs,
                well_linked(cs),
                forall|k: GuestId| #[trigger]
                    edges@.contains_key(k) <==> exists|j: int| 0 <= j < i && involves(#[trigger] cs[j], k),
                forall|k: GuestId| #[trigger]
                    edges@.contains_key(k) ==> edges@[k]@ == adjacency(cs.take(i as int), k),
            decreases cs.len() - i,
        {
            let ca = constraints[i].a;
            let cb = constraints[i].b;
            let kind = constraints[i].kind;
            let ghost c = cs[i as int];
            proof {
                lemma_take_last(cs, i as int);
                assert(cs.take(i as int + 1) == cs.take(i as int).push(c)) by {
                    assert(cs.take(i as int).push(c) =~= cs.take(i as int + 1));
                }
                assert(c.a != c.b);
                assert forall|z: GuestId| !edges@.contains_key(z) implies adjacency(cs.take(i as int), z)
                    == Seq::<Link>::empty() by {
                    assert forall|j: int| 0 <= j < cs.take(i as int).len() implies !involves(
                        #[trigger] cs.take(i as int)[j],
                        z,
                    ) by {
                        assert(cs.take(i as int)[j] == cs[j]);
                    }
                    lemma_adjacency_untouched(cs.take(i as int), z);
                }
            }
            let mut la = take_links(&mut edges, ca);
            la.push((cb, kind));
            edges.insert(ca, la);
            let mut lb = take_links(&mut edges, cb);
            lb.push((ca, kind));
            edges.insert(cb, lb);
            proof {
                assert forall|k: GuestId| #[trigger]
                    edges@.contains_key(k) implies edges@[k]@ == adjacency(cs.take(i as int + 1), k) by {
                    lemma_adjacency_push(cs.take(i as int), c, k);
                }
                assert forall|k: GuestId| #[trigger]
                    edges@.contains_key(k) <==> exists|j: int| 0 <= j < i + 1 && involves(#[trigger] cs[j], k) by {
                    if edges@.contains_key(k) && k != ca && k != cb {
                        let j = choose|j: int| 0 <= j < i && involves(#[trigger] cs[j], k);
                    }
                    if exists|j: int| 0 <= j < i + 1 && involves(#[trigger] cs[j], k) {
                        let j = choose|j: int| 0 <= j < i + 1 && involves(#[trigger] cs[j], k);
                        if j < i {
                        }
                    }
                }
            }
            i += 1;
        }
        proof {
            assert(cs.take(cs.len() as int) =~= cs);
            assert(edges@.dom() =~= endpoints(cs));
        }
        *self = ConstraintGraph { edges, constraints };
    }

    /// Splits the guests that have a link list into their Must groups. The groups
    /// come in the order in which the map yields their first guest; each group lists
    /// its guests in the order of a depth-first walk along Must links from that guest,
    /// partners pushed in the order of its links.
    #[verifier::rlimit(60)]
    pub fn must_components(&self) -> (r: Vec<Vec<GuestId>>)
        ensures
            is_must_partition(self.links(), self.members(), r.deep_view()),
            forall|c: int| 0 <= c < r.len() ==> grown_by_must_links(self.links(), #[trigger] r[c]@),
            forall|c: int|
                0 <= c < r.len() ==> walked_group(
                    self.links(),
                    groups_before(r.deep_view(), c),
                    r.deep_view()[c][0],
                    #[trigger] r.deep_view()[c],
                ),
    {
        proof {
            use_type_invariant(self);
        }
        let ghost cs = self.constraints@;
        let ghost dom = self.edges@.dom();
        let mut visited: HashSet<GuestId> = HashSet::new();
        let mut components: Vec<Vec<GuestId>> = Vec::new();
        let keys = member_list(&self.edges);
        let ghost mut views: Seq<Seq<GuestId>> = Seq::empty();
        let mut i: usize = 0;
        while i < keys.len()
            invariant
                i <= keys.len(),
                cs == self.constraints@,
                dom == self.edges@.dom(),
                self.wf(),
                keys@.to_set() == dom,
                visited@.subset_of(dom),
                must_closed(cs, visited@),
                forall|j: int| 0 <= j < i ==> visited@.contains(#[trigger] keys@[j]),
                forall|x: GuestId|
                    #[trigger] visited@.contains(x) <==> exists|c: int|
                        0 <= c < components@.len() && #[trigger] components@[c]@.contains(x),
                forall|c: int|
                    0 <= c < components@.len() ==> (#[trigger] components@[c]@).len() > 0
                        && components@[c]@.no_duplicates() && is_must_group(
                        cs,
                        components@[c]@[0],
                        components@[c]@.to_set(),
                    ),
                forall|c: int, d: int, x: GuestId|
                    0 <= c < components@.len() && 0 <= d < components@.len() && c != d && 
                    #[trigger] components@[c]@.contains(x) ==> !#[trigger] components@[d]@.contains(x),
                forall|c: int| 0 <= c < components@.len() ==> grown_by_must_links(cs, #[trigger] components@[c]@),
                views.len() == components@.len(),
                forall|c: int| 0 <= c < components@.len() ==> #[trigger] views[c] == components@[c]@,
                forall|c: int|
                    0 <= c < views.len() ==> walked_group(cs, groups_before(views, c), views[c][0], #[trigger] views[c]),
            decreases keys.len() - i,
        {
            let guest = keys[i];
            proof {
                assert(keys@.to_set().contains(guest));
            }
            if visited.contains(&guest) {
                i += 1;
                continue;
            }
            let ghost prev = visited@;
            let ghost comps0 = components@;
            let mut component: Vec<GuestId> = Vec::new();
            let mut stack: Vec<GuestId> = Vec::new();
            stack.push(guest);
            let ghost mut trace: Seq<(Set<GuestId>, Seq<GuestId>, Seq<GuestId>)> = seq![
                (prev, seq![guest], Seq::<GuestId>::empty()),
            ];
            proof {
                vstd::set_lib::lemma_len_subset(visited@, dom);
                assert(stack@ =~= seq![guest]);
                assert(component@ =~= Seq::<GuestId>::empty());
            }
            while stack.len() > 0
                invariant
                    cs == self.constraints@,
                    dom == self.edges@.dom(),
                    self.wf(),
                    dom.finite(),
                    dom.contains(guest),
                    !prev.contains(guest),
                    must_closed(cs, prev),
                    visited@.subset_of(dom),
                    visited@.len() <= dom.len(),
                    visited@ == prev.union(component@.to_set()),
                    component@.no_duplicates(),
                    forall|j: int| 0 <= j < component@.len() ==> !prev.contains(#[trigger] component@[j]),
                    component@.len() == 0 ==> stack@ == seq![guest] && visited@ == prev,
                    component@.len() > 0 ==> component@[0] == guest,
                    forall|j: int| 0 <= j < stack@.len() ==> dom.contains(#[trigger] stack@[j]),
                    forall|t: Set<GuestId>| #[trigger]
                        must_closed(cs, t) && t.contains(guest) ==> (forall|j: int|
                            0 <= j < component@.len() ==> t.contains(#[trigger] component@[j])) && (forall|j: int|
                            0 <= j < stack@.len() ==> t.contains(#[trigger] stack@[j])),
                    forall|x: GuestId, y: GuestId|
                        #[trigger] component@.contains(x) && #[trigger] must_adjacent(cs, x, y) ==> visited@.contains(y)
                            || stack@.contains(y),
                    grown_by_must_links(cs, component@),
                    component@.len() > 0 ==> forall|j: int|
                        0 <= j < stack@.len() ==> linked_to_some(cs, component@, #[trigger] stack@[j]),
                    forall|c: int| 0 <= c < components@.len() ==> grown_by_must_links(cs, #[trigger] components@[c]@),
                    components@ == comps0,
                    views.len() == components@.len(),
                    forall|c: int| 0 <= c < components@.len() ==> #[trigger] views[c] == components@[c]@,
                    forall|c: int|
                        0 <= c < views.len() ==> walked_group(cs, groups_before(views, c), views[c][0], #[trigger] views[c]),
                    trace.len() > 0,
                    trace[0] == (prev, seq![guest], Seq::<GuestId>::empty()),
                    forall|k: int|
                        0 <= k < trace.len() - 1 ==> (#[trigger] trace[k]).1.len() > 0 && trace[k + 1] == walk_step(cs, trace[k]),
                    trace.last() == (visited@, stack@, component@),
                decreases dom.len() - visited@.len(), stack@.len(),
            {
                let ghost stack0 = stack@;
                let ghost visited0 = visited@;
                let ghost comp0 = component@;
                let current = stack.pop().unwrap();
                proof {
                    assert(stack0 == stack@.push(current)) by {
                        assert(stack0 =~= stack@.push(current));
                    }
                    lemma_push_contains(stack@, current);
                    assert(dom.contains(stack0[stack0.len() - 1]));
                }
                if !visited.insert(current) {
                    proof {
                        assert forall|t: Set<GuestId>| #[trigger]
                            must_closed(cs, t) && t.contains(guest) implies (forall|j: int|
                                0 <= j < component@.len() ==> t.contains(#[trigger] component@[j])) && (forall|j: int|
                                0 <= j < stack@.len() ==> t.contains(#[trigger] stack@[j])) by {
                            assert forall|j: int| 0 <= j < stack@.len() implies t.contains(#[trigger] stack@[j]) by {
                                assert(stack@[j] == stack0[j]);
                            }
                        }
                        assert forall|j: int| 0 <= j < stack@.len() implies dom.contains(#[trigger] stack@[j]) by {
                            assert(stack@[j] == stack0[j]);
                        }
                        if component@.len() > 0 {
                            assert forall|j: int| 0 <= j < stack@.len() implies linked_to_some(cs, component@, #[trigger] stack@[j]) by {
                                assert(stack@[j] == stack0[j]);
                            }
                        }
                        assert(stack0.drop_last() =~= stack@);
                        assert(walk_step(cs, trace.last()) == (visited@, stack@, component@));
                        lemma_walk_extend(cs, trace, (visited@, stack@, component@));
                        trace = trace.push((visited@, stack@, component@));
                    }
                    continue;
                }
                component.push(current);
                proof {
                    lemma_push_contains(comp0, current);
                    assert(visited@ =~= prev.union(component@.to_set()));
                    vstd::set_lib::lemma_len_subset(visited@, dom);
                    assert(stack0[stack0.len() - 1] == current);
                    assert forall|t: Set<GuestId>| #[trigger]
                        must_closed(cs, t) && t.contains(guest) implies (forall|j: int|
                            0 <= j < component@.len() ==> t.contains(#[trigger] component@[j])) && (forall|j: int|
                            0 <= j < stack@.len() ==> t.contains(#[trigger] stack@[j])) by {
                        assert(t.contains(stack0[stack0.len() - 1]));
                        assert forall|j: int| 0 <= j < stack@.len() implies t.contains(#[trigger] stack@[j]) by {
                            assert(stack@[j] == stack0[j]);
                        }
                        assert forall|j: int| 0 <= j < component@.len() implies t.contains(#[trigger] component@[j]) by {
                            if j < comp0.len() {
                                assert(component@[j] == comp0[j]);
                            }
                        }
                    }
                    assert forall|j: int| 0 <= j < stack@.len() implies dom.contains(#[trigger] stack@[j]) by {
                        assert(stack@[j] == stack0[j]);
                    }
                    assert forall|j: int| 0 <= j < component@.len() implies !prev.contains(#[trigger] component@[j]) by {
                        if j < comp0.len() {
                            assert(component@[j] == comp0[j]);
                        }
                    }
                    if comp0.len() > 0 {
                        assert(component@[0] == comp0[0]);
                    }
                    assert(component@ == comp0.push(current));
                    if comp0.len() > 0 {
                        assert(linked_to_some(cs, comp0, stack0[stack0.len() - 1]));
                        let m = choose|m: int| 0 <= m < comp0.len() && #[trigger] must_adjacent(cs, comp0[m], current);
                        assert(component@[m] == comp0[m]);
                        assert(must_adjacent(cs, component@[m], component@[comp0.len() as int]));
                    }
                    assert(grown_by_must_links(cs, component@)) by {
                        let cc = component@;
                        assert forall|k: int| #![trigger cc[k]] 0 < k < cc.len() implies exists|j: int|
                            0 <= j < k && #[trigger] must_adjacent(cs, cc[j], cc[k]) by {
                            if k < comp0.len() {
                                assert(cc[k] == comp0[k]);
                                assert(comp0[k] == comp0[k]);
                                let j = choose|j: int| 0 <= j < k && #[trigger] must_adjacent(cs, comp0[j], comp0[k]);
                                assert(cc[j] == comp0[j]);
                                assert(must_adjacent(cs, cc[j], cc[k]));
                            } else {
                                assert(k == comp0.len());
                                assert(cc[k] == current);
                                let m = choose|m: int| 0 <= m < comp0.len() && #[trigger] must_adjacent(cs, comp0[m], current);
                                assert(cc[m] == comp0[m]);
                                assert(must_adjacent(cs, cc[m], cc[k]));
                            }
                        }
                    }
                    assert forall|j: int| 0 <= j < stack@.len() implies linked_to_some(cs, component@, #[trigger] stack@[j]) by {
                        assert(stack@[j] == stack0[j]);
                        assert(comp0.len() > 0);
                        let m = choose|m: int| 0 <= m < comp0.len() && #[trigger] must_adjacent(cs, comp0[m], stack0[j]);
                        assert(component@[m] == comp0[m]);
                    }
                }
                let ghost stack1 = stack@;
                let ghost visited1 = visited@;
                match self.edges.get(&current) {
                    Some(adj) => {
                        let mut j: usize = 0;
                        while j < adj.len()
                            invariant
                                j <= adj.len(),
                                cs == self.constraints@,
                                dom == self.edges@.dom(),
                                self.wf(),
                                adj@ == adjacency(cs, current),
                                visited@ == visited1,
                                visited1.contains(current),
                                forall|t: Set<GuestId>| #[trigger]
                                    must_closed(cs, t) && t.contains(guest) ==> t.contains(current) && (forall|k: int|
                                        0 <= k < stack@.len() ==> t.contains(#[trigger] stack@[k])),
                                forall|k: int| 0 <= k < stack@.len() ==> dom.contains(#[trigger] stack@[k]),
                                forall|y: GuestId| stack1.contains(y) ==> stack@.contains(y),
                                stack@.len() >= stack1.len(),
                                forall|k: int|
                                    0 <= k < j && (#[trigger] adj@[k]).1 == LinkType::Must ==> visited@.contains(
                                        adj@[k].0,
                                    ) || stack@.contains(adj@[k].0),
                                component@.len() > 0,
                                component@.last() == current,
                                grown_by_must_links(cs, component@),
                                stack@ == stack1 + must_unvisited(adj@.take(j as int), visited1),
                                forall|k: int| 0 <= k < stack@.len() ==> linked_to_some(cs, component@, #[trigger] stack@[k]),
                            decreases adj.len() - j,
                        {
                            let (neighbor, kind) = adj[j];
                            let ghost stack2 = stack@;
                            proof {
                                lemma_take_last(adj@, j as int);
                            }
                            if kind == LinkType::Must && !visited.contains(&neighbor) {
                                stack.push(neighbor);
                                proof {
                                    lemma_push_contains(stack2, neighbor);
                                    lemma_adjacency_sound(cs, current);
                                    assert(link_from(cs, current, adj@[j as int]));
                                    let c = choose|c: int|
                                        0 <= c < cs.len() && involves(#[trigger] cs[c], current) && adj@[j as int] == (
                                        other_end(cs[c], current),
                                        cs[c].kind,
                                    );
                                    assert(dom.contains(cs[c].a) && dom.contains(cs[c].b));
                                    assert(must_adjacent(cs, current, neighbor));
                                    assert forall|t: Set<GuestId>| #[trigger]
                                        must_closed(cs, t) && t.contains(guest) implies t.contains(current) && (forall|k: int|
                                            0 <= k < stack@.len() ==> t.contains(#[trigger] stack@[k])) by {
                                        assert(t.contains(neighbor));
                                        assert forall|k: int| 0 <= k < stack@.len() implies t.contains(#[trigger] stack@[k]) by {
                                            if k < stack2.len() {
                                                assert(stack@[k] == stack2[k]);
                                            }
                                        }
                                    }
                                    assert forall|k: int| 0 <= k < stack@.len() implies dom.contains(#[trigger] stack@[k]) by {
                                        if k < stack2.len() {
                                            assert(stack@[k] == stack2[k]);
                                        }
                                    }
                                    assert forall|k: int| 0 <= k < stack@.len() implies linked_to_some(cs, component@, #[trigger] stack@[k]) by {
                                        if k < stack2.len() {
                                            assert(stack@[k] == stack2[k]);
                                        } else {
                                            assert(component@[component@.len() - 1] == current);
                                            assert(must_adjacent(cs, component@[component@.len() - 1], neighbor));
                                        }
                                    }
                                }
                            } else {
                            }
                            proof {
                                lemma_push_contains(stack2, neighbor);
                                assert(stack@ =~= stack1 + must_unvisited(adj@.take(j + 1), visited1));
                            }
                            j += 1;
                        }
                        proof {
                            assert(adj@.take(adj.len() as int) =~= adj@);
                        }
                    },
                    None => {
                        proof {
                            assert(dom.contains(current));
                        }
                    },
                }
                proof {
                    let adj_c = adjacency(cs, current);
                    lemma_adjacency_complete(cs, current);
                    if !dom.contains(current) {
                        assert(false);
                    }
                    assert forall|x: GuestId, y: GuestId|
                        #[trigger] component@.contains(x) && #[trigger] must_adjacent(cs, x, y) implies visited@.contains(y)
                            || stack@.contains(y) by {
                        lemma_push_contains(comp0, current);
                        if x == current {
                            let c = choose|c: int|
                                0 <= c < cs.len() && (#[trigger] cs[c]).kind == LinkType::Must && joins(cs[c], x, y);
                            assert(cs[c].a != cs[c].b);
                            assert(involves(cs[c], current));
                            assert(adj_c.contains((other_end(cs[c], current), cs[c].kind)));
                            let k = choose|k: int| 0 <= k < adj_c.len() && adj_c[k] == (other_end(cs[c], current), cs[c].kind);
                            assert(adj_c[k].0 == y);
                        } else {
                            assert(comp0.contains(x));
                            assert(visited0.contains(y) || stack0.contains(y));
                            lemma_push_contains(stack1, current);
                        }
                    }
                }
                proof {
                    assert(stack1 =~= stack0.drop_last());
                    assert(stack0.last() == current);
                    assert(visited1 == visited0.insert(current));
                    assert(walk_step(cs, trace.last()) == (visited@, stack@, component@));
                    lemma_walk_extend(cs, trace, (visited@, stack@, component@));
                    trace = trace.push((visited@, stack@, component@));
                }
            }
            proof {
                let comp = component@;
                assert forall|x: GuestId, y: GuestId|
                    #[trigger] comp.to_set().contains(x) && #[trigger] must_adjacent(cs, x, y) implies comp.to_set().contains(y) by {
                    assert(comp.contains(x));
                    if prev.contains(y) {
                        assert(must_adjacent(cs, y, x)) by {
                            let c = choose|c: int|
                                0 <= c < cs.len() && (#[trigger] cs[c]).kind == LinkType::Must && joins(cs[c], x, y);
                        }
                        let j = choose|j: int| 0 <= j < comp.len() && comp[j] == x;
                        assert(!prev.contains(comp[j]));
                    }
                }
                assert forall|t: Set<GuestId>| #[trigger] must_closed(cs, t) && t.contains(guest) implies comp.to_set().subset_of(t) by {
                    assert forall|x: GuestId| comp.to_set().contains(x) implies t.contains(x) by {
                        let j = choose|j: int| 0 <= j < comp.len() && comp[j] == x;
                    }
                }
                assert(comp[0] == guest);
                assert(is_must_group(cs, comp[0], comp.to_set()));
            }
            let ghost cv = component@;
            proof {
                assert(is_walk(cs, trace));
                assert(walked_group(cs, prev, guest, cv));
            }
            components.push(component);
            proof {
                let v0 = views;
                assert(prev =~= groups_before(v0, v0.len() as int)) by {
                    assert forall|x: GuestId| prev.contains(x) <==> groups_before(v0, v0.len() as int).contains(x) by {
                        if prev.contains(x) {
                            let c = choose|c: int| 0 <= c < comps0.len() && #[trigger] comps0[c]@.contains(x);
                            assert(v0[c] == comps0[c]@);
                        }
                        if groups_before(v0, v0.len() as int).contains(x) {
                            let d = choose|d: int| 0 <= d < v0.len() && #[trigger] v0[d].contains(x);
                            assert(v0[d] == comps0[d]@);
                        }
                    }
                }
                views = views.push(cv);
                assert forall|c: int| 0 <= c < components@.len() implies #[trigger] views[c] == components@[c]@ by {
                    if c < v0.len() {
                        assert(components@[c] == comps0[c]);
                    }
                }
                assert forall|c: int| 0 <= c < views.len() implies walked_group(cs, groups_before(views, c), views[c][0], #[trigger] views[c]) by {
                    lemma_groups_before_push(v0, cv, c);
                    if c < v0.len() {
                        assert(views[c] == v0[c]);
                    } else {
                        assert(views[c] == cv);
                        assert(cv[0] == guest);
                    }
                }
            }
            proof {
                let comp = components@[comps0.len() as int]@;
                assert forall|c: int| 0 <= c < comps0.len() implies #[trigger] components@[c] == comps0[c] by {}
                assert forall|x: GuestId|
                    #[trigger] visited@.contains(x) <==> exists|c: int|
                        0 <= c < components@.len() && #[trigger] components@[c]@.contains(x) by {
                    if prev.contains(x) {
                        let c = choose|c: int| 0 <= c < comps0.len() && #[trigger] comps0[c]@.contains(x);
                        assert(components@[c]@ == comps0[c]@);
                        assert(components@[c]@.contains(x));
                    } else if visited@.contains(x) {
                        assert(comp.to_set().contains(x));
                        assert(components@[comps0.len() as int]@.contains(x));
                    }
                    if exists|c: int| 0 <= c < components@.len() && #[trigger] components@[c]@.contains(x) {
                        let c = choose|c: int| 0 <= c < components@.len() && #[trigger] components@[c]@.contains(x);
                        if c < comps0.len() {
                            assert(components@[c]@ == comps0[c]@);
                            assert(comps0[c]@.contains(x));
                            assert(prev.contains(x));
                        } else {
                            assert(comp.contains(x));
                            assert(comp.to_set().contains(x));
                        }
                    }
                }
                assert forall|c: int, d: int, x: GuestId|
                    0 <= c < components@.len() && 0 <= d < components@.len() && c != d && 
                    #[trigger] components@[c]@.contains(x) implies !#[trigger] components@[d]@.contains(x) by {
                    if c == comps0.len() {
                        let k = choose|k: int| 0 <= k < comp.len() && comp[k] == x;
                        assert(!prev.contains(comp[k]));
                        assert(components@[d]@ == comps0[d]@);
                    } else if d == comps0.len() {
                        assert(components@[c]@ == comps0[c]@);
                        assert(prev.contains(x));
                        if comp.contains(x) {
                            let k = choose|k: int| 0 <= k < comp.len() && comp[k] == x;
                            assert(!prev.contains(comp[k]));
                        }
                    } else {
                        assert(components@[c]@ == comps0[c]@);
                        assert(components@[d]@ == comps0[d]@);
                    }
                }
                assert forall|c: int|
                    0 <= c < components@.len() implies (#[trigger] components@[c]@).len() > 0
                        && components@[c]@.no_duplicates() && is_must_group(
                        cs,
                        components@[c]@[0],
                        components@[c]@.to_set(),
                    ) by {
                    if c < comps0.len() {
                        assert(components@[c]@ == comps0[c]@);
                    }
                }
                assert forall|x: GuestId, y: GuestId|
                    #[trigger] visited@.contains(x) && #[trigger] must_adjacent(cs, x, y) implies visited@.contains(y) by {
                    if !prev.contains(x) {
                        assert(comp.to_set().contains(x));
                    }
                }
                assert forall|j: int| 0 <= j < i + 1 implies visited@.contains(#[trigger] keys@[j]) by {
                    if j == i {
                        assert(comp.contains(guest)) by {
                            assert(comp[0] == guest);
                        }
                    }
                }
            }
            i += 1;
        }
        proof {
            let r = components.deep_view();
            assert(r.len() == components@.len());
            assert(r =~= views) by {
                assert forall|c: int| 0 <= c < r.len() implies r[c] == views[c] by {
                    assert(r[c] =~= components@[c]@);
                }
            }
            assert forall|c: int| 0 <= c < components@.len() implies #[trigger] r[c] == components@[c]@ by {
                assert(r[c] =~= components@[c]@);
            }
            assert forall|x: GuestId| #[trigger] dom.contains(x) implies visited@.contains(x) by {
                assert(keys@.to_set().contains(x));
                let j = choose|j: int| 0 <= j < keys@.len() && keys@[j] == x;
            }
            assert forall|c: int|
                0 <= c < r.len() implies (#[trigger] r[c]).len() > 0 && r[c].no_duplicates()
                    && is_must_group(cs, r[c][0], r[c].to_set()) by {
                assert(r[c] == components@[c]@);
            }
            assert forall|c: int, d: int, x: GuestId|
                0 <= c < r.len() && 0 <= d < r.len() && c != d && #[trigger] r[c].contains(x)
                    implies !#[trigger] r[d].contains(x) by {
                assert(r[c] == components@[c]@);
                assert(r[d] == components@[d]@);
            }
            assert forall|x: GuestId|
                #[trigger] dom.contains(x) <==> exists|c: int| 0 <= c < r.len() && #[trigger] r[c].contains(x) by {
                if dom.contains(x) {
                    assert(visited@.contains(x));
                    let c = choose|c: int| 0 <= c < components@.len() && #[trigger] components@[c]@.contains(x);
                    assert(r[c] == components@[c]@);
                    assert(r[c].contains(x));
                }
                if exists|c: int| 0 <= c < r.len() && #[trigger] r[c].contains(x) {
                    let c = choose|c: int| 0 <= c < r.len() && #[trigger] r[c].contains(x);
                    assert(r[c] == components@[c]@);
                    assert(components@[c]@.contains(x));
                    assert(visited@.contains(x));
                }
            }
        }
        components
    }
}

} // verus!
