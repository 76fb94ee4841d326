use vstd::prelude::*;

use crate::constraint::{groups_before, is_must_group, is_must_partition, pair_kind, walked_group, Constraint, LinkType};
use crate::guest::GuestId;
use crate::solver::SolveError;
use crate::table::{adjacent_positions, earlier, free_positions, holds, occupants_at, seat_grid, seat_of, Seat, SeatingArrangement};

verus! {

// ---------------------------------------------------------------- seating, step by step

/// Seat `s` of table `t` exists and is empty.
pub open spec fn is_free(g: Seq<Seq<Seat>>, t: int, s: int) -> bool {
    0 <= t < g.len() && 0 <= s < g[t].len() && g[t][s] is None
}

/// `g` with seat `s` of table `t` set to `v`.
pub open spec fn seat_at(g: Seq<Seq<Seat>>, t: int, s: int, v: Seat) -> Seq<Seq<Seat>> {
    g.update(t, g[t].update(s, v))
}

/// Empty tables of the given sizes.
pub open spec fn empty_grid(caps: Seq<usize>) -> Seq<Seq<Seat>> {
    Seq::new(caps.len(), |t: int| Seq::new(caps[t] as nat, |s: int| None::<GuestId>))
}

/// `x` sits somewhere in `g`.
pub open spec fn is_seated(g: Seq<Seq<Seat>>, x: GuestId) -> bool {
    exists|t: int, s: int| #[trigger] holds(g, t, s, x)
}

/// The guests of `order` that have no seat in `g`, in the order of `order`.
pub open spec fn not_seated(g: Seq<Seq<Seat>>, order: Seq<GuestId>) -> Seq<GuestId>
    decreases order.len(),
{
    if order.len() == 0 {
        order
    } else if is_seated(g, order.last()) {
        not_seated(g, order.drop_last())
    } else {
        not_seated(g, order.drop_last()).push(order.last())
    }
}

/// How many empty seats `row` has.
pub open spec fn room(row: Seq<Seat>) -> nat {
    free_positions(row).len()
}

/// `t` is the first table with room for `n` more guests.
pub open spec fn is_first_roomy(g: Seq<Seq<Seat>>, n: nat, t: int) -> bool {
    &&& 0 <= t < g.len()
    &&& room(g[t]) >= n
    &&& forall|t2: int| 0 <= t2 < t ==> room(#[trigger] g[t2]) < n
}

/// The first table with room for `n` more guests, if any.
pub open spec fn first_roomy_table(g: Seq<Seq<Seat>>, n: nat) -> Option<int> {
    if exists|t: int| is_first_roomy(g, n, t) {
        Some(choose|t: int| is_first_roomy(g, n, t))
    } else {
        None
    }
}

/// Seats the guests of `gs` in turn, each at the first empty seat of `row`.
pub open spec fn fill_row(row: Seq<Seat>, gs: Seq<GuestId>) -> Seq<Seat>
    decreases gs.len(),
{
    if gs.len() == 0 {
        row
    } else {
        let f = free_positions(row);
        let next = if f.len() > 0 {
            row.update(f[0] as int, Some(gs[0]))
        } else {
            row
        };
        fill_row(next, gs.drop_first())
    }
}

/// How many entries of `xs` are in `group`.
pub open spec fn count_in(xs: Seq<GuestId>, group: Seq<GuestId>) -> nat
    decreases xs.len(),
{
    if xs.len() == 0 {
        0
    } else {
        count_in(xs.drop_last(), group) + if group.contains(xs.last()) {
            1nat
        } else {
            0nat
        }
    }
}

/// The guests next to seat `s` of `row`.
pub open spec fn next_to(row: Seq<Seat>, s: int) -> Seq<GuestId> {
    occupants_at(row, adjacent_positions(row.len() as usize, s as usize))
}

/// How many members of `group` sit next to seat `s` of `row`.
pub open spec fn group_ties(row: Seq<Seat>, s: int, group: Seq<GuestId>) -> nat {
    count_in(next_to(row, s), group)
}

/// Seat `s` is the first empty seat of `row` with the most members of `group` next to it.
pub open spec fn is_best_group_seat(row: Seq<Seat>, group: Seq<GuestId>, s: int) -> bool {
    &&& 0 <= s < row.len()
    &&& row[s] is None
    &&& forall|s2: int|
        0 <= s2 < row.len() && #[trigger] row[s2] is None ==> group_ties(row, s2, group) <= group_ties(
            row,
            s,
            group,
        ) && (s2 < s ==> group_ties(row, s2, group) < group_ties(row, s, group))
}

/// The seat of `row` that `is_best_group_seat` picks.
pub open spec fn best_group_seat(row: Seq<Seat>, group: Seq<GuestId>) -> int {
    choose|s: int| is_best_group_seat(row, group, s)
}

/// Seats the waiting guests of `group`, table by table from table `t`, each at the
/// best seat of the current table for the group, until the table is full.
pub open spec fn spread(g: Seq<Seq<Seat>>, t: int, waiting: Seq<GuestId>, group: Seq<GuestId>) -> Seq<Seq<Seat>>
    decreases g.len() - t, waiting.len(),
{
    if waiting.len() == 0 || t < 0 || t >= g.len() {
        g
    } else if room(g[t]) == 0 {
        spread(g, t + 1, waiting, group)
    } else {
        spread(seat_at(g, t, best_group_seat(g[t], group), Some(waiting[0])), t, waiting.drop_first(), group)
    }
}

/// Seats a Must group: all at the first table with room for all of them, or else
/// spread from the first table on (such a seating then fails the Must check that
/// `solve_outcome` makes at the end).
pub open spec fn place_group(g: Seq<Seq<Seat>>, group: Seq<GuestId>) -> Seq<Seq<Seat>> {
    if group.len() == 0 {
        g
    } else {
        match first_roomy_table(g, group.len()) {
            Some(t) => g.update(t, fill_row(g[t], group)),
            None => spread(g, 0, group, group),
        }
    }
}

/// Seats the Must groups one after the other.
pub open spec fn place_groups(g: Seq<Seq<Seat>>, groups: Seq<Seq<GuestId>>) -> Seq<Seq<Seat>>
    decreases groups.len(),
{
    if groups.len() == 0 {
        g
    } else {
        place_groups(place_group(g, groups[0]), groups.drop_first())
    }
}

/// `seat` is taken by somebody with a Wont constraint with `b`.
pub open spec fn refuses(cs: Seq<Constraint>, b: GuestId, seat: Seat) -> bool {
    match seat {
        Some(tg) => pair_kind(cs, b, tg) == Some(LinkType::Wont),
        None => false,
    }
}

/// Somebody at `row` has a Wont constraint with `b`.
pub open spec fn wont_at(cs: Seq<Constraint>, row: Seq<Seat>, b: GuestId) -> bool {
    exists|s: int| 0 <= s < row.len() && refuses(cs, b, #[trigger] row[s])
}

/// Table `i` can take `b` away from table `from`: another table, with an empty seat,
/// where nobody refuses to sit with `b`.
pub open spec fn can_take(cs: Seq<Constraint>, g: Seq<Seq<Seat>>, from: int, b: GuestId, i: int) -> bool {
    &&& 0 <= i < g.len()
    &&& i != from
    &&& room(g[i]) > 0
    &&& !wont_at(cs, g[i], b)
}

/// `i` is the first table that can take `b` away from table `from`.
pub open spec fn is_first_refuge(cs: Seq<Constraint>, g: Seq<Seq<Seat>>, from: int, b: GuestId, i: int) -> bool {
    &&& can_take(cs, g, from, b, i)
    &&& forall|i2: int| 0 <= i2 < i ==> !#[trigger] can_take(cs, g, from, b, i2)
}

/// The first table that can take `b` away from table `from`, if any.
pub open spec fn refuge(cs: Seq<Constraint>, g: Seq<Seq<Seat>>, from: int, b: GuestId) -> Option<int> {
    if exists|i: int| is_first_refuge(cs, g, from, b, i) {
        Some(choose|i: int| is_first_refuge(cs, g, from, b, i))
    } else {
        None
    }
}

/// Moves `b` from seat `s` of table `from` to the first empty seat of table `to`.
pub open spec fn relocate(g: Seq<Seq<Seat>>, from: int, s: int, to: int, b: GuestId) -> Seq<Seq<Seat>> {
    let g1 = seat_at(g, from, s, None);
    let f = free_positions(g1[to]);
    if f.len() > 0 {
        seat_at(g1, to, f[0] as int, Some(b))
    } else {
        g1
    }
}

/// Handles one constraint: when it is a Wont and both guests sit at one table, the
/// second guest moves to the first table that can take them, or the pair is reported.
pub open spec fn separate(cs: Seq<Constraint>, g: Seq<Seq<Seat>>, c: Constraint) -> Result<Seq<Seq<Seat>>, (GuestId, GuestId)> {
    if c.kind != LinkType::Wont {
        Ok(g)
    } else {
        match (seat_of(g, c.a), seat_of(g, c.b)) {
            (Some(pa), Some(pb)) => if pa.0 != pb.0 {
                Ok(g)
            } else {
                match refuge(cs, g, pa.0, c.b) {
                    Some(t) => Ok(relocate(g, pa.0, pb.1, t, c.b)),
                    None => Err((c.a, c.b)),
                }
            },
            _ => Ok(g),
        }
    }
}

/// Handles the constraints of `pending` in order, stopping at the first pair that
/// cannot be separated.
pub open spec fn separate_all(cs: Seq<Constraint>, pending: Seq<Constraint>, g: Seq<Seq<Seat>>) -> Result<Seq<Seq<Seat>>, (GuestId, GuestId)>
    decreases pending.len(),
{
    if pending.len() == 0 {
        Ok(g)
    } else {
        match separate(cs, g, pending[0]) {
            Err(e) => Err(e),
            Ok(g2) => separate_all(cs, pending.drop_first(), g2),
        }
    }
}

/// The seats as they stand when `separate_all` stops: after the last constraint, or
/// before the one whose pair could not be separated (the moves made for earlier
/// constraints stay).
pub open spec fn separation_reached(cs: Seq<Constraint>, pending: Seq<Constraint>, g: Seq<Seq<Seat>>) -> Seq<Seq<Seat>>
    decreases pending.len(),
{
    if pending.len() == 0 {
        g
    } else {
        match separate(cs, g, pending[0]) {
            Err(_) => g,
            Ok(g2) => separation_reached(cs, pending.drop_first(), g2),
        }
    }
}

/// `guest` must or should sit with `n`.
pub open spec fn preferred(cs: Seq<Constraint>, guest: GuestId, n: GuestId) -> bool {
    pair_kind(cs, guest, n) == Some(LinkType::Must) || pair_kind(cs, guest, n) == Some(LinkType::Should)
}

/// How many entries of `xs` `guest` must or should sit with.
pub open spec fn count_preferred(cs: Seq<Constraint>, guest: GuestId, xs: Seq<GuestId>) -> nat
    decreases xs.len(),
{
    if xs.len() == 0 {
        0
    } else {
        count_preferred(cs, guest, xs.drop_last()) + if preferred(cs, guest, xs.last()) {
            1nat
        } else {
            0nat
        }
    }
}

/// The worth of seat `s` of table `t` for `guest`: a hundred per preferred neighbour,
/// and one more when anybody at all sits next to it.
pub open spec fn seat_score(cs: Seq<Constraint>, guest: GuestId, g: Seq<Seq<Seat>>, t: int, s: int) -> int {
    let nb = next_to(g[t], s);
    100 * count_preferred(cs, guest, nb) + if nb.len() > 0 {
        1int
    } else {
        0int
    }
}

/// How many of the guests at `row` `guest` must or should sit with.
pub open spec fn table_score(cs: Seq<Constraint>, guest: GuestId, row: Seq<Seat>) -> nat
    decreases row.len(),
{
    if row.len() == 0 {
        0
    } else {
        table_score(cs, guest, row.drop_last()) + match row.last() {
            Some(p) => if preferred(cs, guest, p) {
                1nat
            } else {
                0nat
            },
            None => 0nat,
        }
    }
}

/// Seat (t2, s2) ranks below seat (t, s) for `guest`: its table holds fewer of the
/// guest's Must and Should partners, or as many and the seat scores no more (and less
/// when it comes earlier).
pub open spec fn ranks_below(cs: Seq<Constraint>, guest: GuestId, g: Seq<Seq<Seat>>, t2: int, s2: int, t: int, s: int) -> bool {
    let a = table_score(cs, guest, g[t2]);
    let b = table_score(cs, guest, g[t]);
    ||| a < b
    ||| a == b && seat_score(cs, guest, g, t2, s2) <= seat_score(cs, guest, g, t, s) && (earlier(t2, s2, t, s)
        ==> seat_score(cs, guest, g, t2, s2) < seat_score(cs, guest, g, t, s))
}

/// (t, s) is the best empty seat for `guest`: at a table holding the most of the
/// guest's Must and Should partners, the empty seat with the highest score among all
/// such tables, the first one, table by table, on a tie.
pub open spec fn is_best_seat_for(cs: Seq<Constraint>, guest: GuestId, g: Seq<Seq<Seat>>, t: int, s: int) -> bool {
    &&& is_free(g, t, s)
    &&& forall|t2: int, s2: int| #[trigger] is_free(g, t2, s2) ==> ranks_below(cs, guest, g, t2, s2, t, s)
}

/// The seat that `is_best_seat_for` picks for `guest`, if there is an empty seat.
pub open spec fn best_seat_for(cs: Seq<Constraint>, guest: GuestId, g: Seq<Seq<Seat>>) -> Option<(int, int)> {
    if exists|p: (int, int)| is_best_seat_for(cs, guest, g, p.0, p.1) {
        Some(choose|p: (int, int)| is_best_seat_for(cs, guest, g, p.0, p.1))
    } else {
        None
    }
}

/// Seats the guests of `gs` in turn, each at their best seat while one is empty.
pub open spec fn seat_by_preference(cs: Seq<Constraint>, g: Seq<Seq<Seat>>, gs: Seq<GuestId>) -> Seq<Seq<Seat>>
    decreases gs.len(),
{
    if gs.len() == 0 {
        g
    } else {
        let next = match best_seat_for(cs, gs[0], g) {
            Some(p) => seat_at(g, p.0, p.1, Some(gs[0])),
            None => g,
        };
        seat_by_preference(cs, next, gs.drop_first())
    }
}

/// (t, s) is the first empty seat, table by table.
pub open spec fn is_first_free(g: Seq<Seq<Seat>>, t: int, s: int) -> bool {
    &&& is_free(g, t, s)
    &&& forall|t2: int, s2: int| #[trigger] is_free(g, t2, s2) ==> !earlier(t2, s2, t, s)
}

/// The first empty seat, table by table, if any.
pub open spec fn first_free_seat(g: Seq<Seq<Seat>>) -> Option<(int, int)> {
    if exists|p: (int, int)| is_first_free(g, p.0, p.1) {
        Some(choose|p: (int, int)| is_first_free(g, p.0, p.1))
    } else {
        None
    }
}

/// Seats the guests of `gs` in turn, each at the first empty seat while one is left.
pub open spec fn seat_anywhere(g: Seq<Seq<Seat>>, gs: Seq<GuestId>) -> Seq<Seq<Seat>>
    decreases gs.len(),
{
    if gs.len() == 0 {
        g
    } else {
        let next = match first_free_seat(g) {
            Some(p) => seat_at(g, p.0, p.1, Some(gs[0])),
            None => g,
        };
        seat_anywhere(next, gs.drop_first())
    }
}

/// The whole seating once the checks have passed: Must groups first, then Wont pairs
/// separated, then the others by preference, then wherever there is room. Gives the
/// seats and the guests of `order` left without one, or the Wont pair that could not
/// be separated.
pub open spec fn arrangement(order: Seq<GuestId>, cs: Seq<Constraint>, caps: Seq<usize>, groups: Seq<Seq<GuestId>>) -> Result<(Seq<Seq<Seat>>, Seq<GuestId>), (GuestId, GuestId)> {
    let g1 = place_groups(empty_grid(caps), groups);
    match separate_all(cs, cs, g1) {
        Err(p) => Err(p),
        Ok(g2) => {
            let g3 = seat_by_preference(cs, g2, not_seated(g2, order));
            let g4 = seat_anywhere(g3, not_seated(g3, order));
            Ok((g4, not_seated(g4, order)))
        },
    }
}

/// Must constraint `c` has both guests seated, at different tables (each guest
/// taken at its first seat).
pub open spec fn split_at(g: Seq<Seq<Seat>>, c: Constraint) -> bool {
    &&& c.kind == LinkType::Must
    &&& seat_of(g, c.a) is Some
    &&& seat_of(g, c.b) is Some
    &&& (seat_of(g, c.a)->0).0 != (seat_of(g, c.b)->0).0
}

/// `i` is the first constraint of `cs` that `g` splits.
pub open spec fn is_first_split(cs: Seq<Constraint>, g: Seq<Seq<Seat>>, i: int) -> bool {
    &&& 0 <= i < cs.len()
    &&& split_at(g, cs[i])
    &&& forall|j: int| 0 <= j < i ==> !split_at(g, #[trigger] cs[j])
}

/// The first Must constraint of `cs` whose guests `g` seats at different tables, if any.
pub open spec fn first_split(cs: Seq<Constraint>, g: Seq<Seq<Seat>>) -> Option<int> {
    if exists|i: int| is_first_split(cs, g, i) {
        Some(choose|i: int| is_first_split(cs, g, i))
    } else {
        None
    }
}

/// All seats together.
pub open spec fn total(caps: Seq<usize>) -> int
    decreases caps.len(),
{
    if caps.len() == 0 {
        0
    } else {
        total(caps.drop_last()) + caps.last()
    }
}

/// The largest table (0 when there is none).
pub open spec fn largest(caps: Seq<usize>) -> usize
    decreases caps.len(),
{
    if caps.len() == 0 {
        0
    } else if caps.last() > largest(caps.drop_last()) {
        caps.last()
    } else {
        largest(caps.drop_last())
    }
}

/// `i` is the first group with more guests than `max`.
pub open spec fn is_first_oversized(groups: Seq<Seq<GuestId>>, max: usize, i: int) -> bool {
    &&& 0 <= i < groups.len()
    &&& groups[i].len() > max
    &&& forall|j: int| 0 <= j < i ==> (#[trigger] groups[j]).len() <= max
}

/// The first group with more guests than `max`, if any.
pub open spec fn first_oversized(groups: Seq<Seq<GuestId>>, max: usize) -> Option<int> {
    if exists|i: int| is_first_oversized(groups, max, i) {
        Some(choose|i: int| is_first_oversized(groups, max, i))
    } else {
        None
    }
}

/// `r` is what seating `guest_ids` gives at tables of sizes `caps`, with the Must
/// groups taken in the order `groups` and the other guests in the order `order`.
pub open spec fn solve_outcome(
    guest_ids: Seq<GuestId>,
    order: Seq<GuestId>,
    cs: Seq<Constraint>,
    caps: Seq<usize>,
    groups: Seq<Seq<GuestId>>,
    r: Result<SeatingArrangement, SolveError>,
) -> bool {
    if caps.len() == 0 {
        r matches Err(SolveError::NoTables)
    } else if total(caps) < guest_ids.len() {
        r matches Err(SolveError::InsufficientCapacity { total: t, needed: n }) && t == total(caps) && n
            == guest_ids.len()
    } else {
        match first_oversized(groups, largest(caps)) {
            Some(i) => r matches Err(SolveError::UnsatisfiableMust { component, max_table }) && component@
                == groups[i] && max_table == largest(caps),
            None => match arrangement(order, cs, caps, groups) {
                Err((a, b)) => r matches Err(SolveError::UnsatisfiableWont { a: ra, b: rb }) && ra == a && rb
                    == b,
                Ok((g, unseated)) => match first_split(cs, g) {
                    Some(i) => r matches Err(SolveError::MustSeparated { a: ra, b: rb }) && ra == cs[i].a && rb
                        == cs[i].b,
                    None => r matches Ok(arr) && arr.tables@.len() == caps.len() && (forall|t: int|
                        0 <= t < caps.len() ==> (#[trigger] arr.tables@[t]).id == t && arr.tables@[t].capacity
                            == caps[t]) && seat_grid(arr.tables@) == g && arr.unseated@ == unseated,
                },
            },
        }
    }
}

// ---------------------------------------------------------------- what a seating keeps

/// Everybody who sits somewhere in `g`.
pub open spec fn seated_set(g: Seq<Seq<Seat>>) -> Set<GuestId> {
    Set::new(|x: GuestId| is_seated(g, x))
}

/// Nobody sits on two seats.
pub open spec fn one_seat_each(g: Seq<Seq<Seat>>) -> bool {
    forall|t1: int, s1: int, t2: int, s2: int, x: GuestId|
        #[trigger] holds(g, t1, s1, x) && #[trigger] holds(g, t2, s2, x) ==> t1 == t2 && s1 == s2
}

/// Every seat is taken.
pub open spec fn no_room(g: Seq<Seq<Seat>>) -> bool {
    forall|t: int, s: int| !#[trigger] is_free(g, t, s)
}

/// `x` and `y` sit at the same table.
pub open spec fn co_seated(g: Seq<Seq<Seat>>, x: GuestId, y: GuestId) -> bool {
    exists|t: int, s1: int, s2: int| #[trigger] holds(g, t, s1, x) && #[trigger] holds(g, t, s2, y)
}

/// No two guests with a Wont constraint sit at the same table.
pub open spec fn wont_kept(cs: Seq<Constraint>, g: Seq<Seq<Seat>>) -> bool {
    forall|i: int|
        0 <= i < cs.len() && (#[trigger] cs[i]).kind == LinkType::Wont ==> !co_seated(g, cs[i].a, cs[i].b)
}

/// The two guests of every Must constraint, when both are seated, sit at one table.
pub open spec fn must_kept(cs: Seq<Constraint>, g: Seq<Seq<Seat>>) -> bool {
    forall|i: int|
        0 <= i < cs.len() && (#[trigger] cs[i]).kind == LinkType::Must && is_seated(g, cs[i].a) && is_seated(
            g,
            cs[i].b,
        ) ==> co_seated(g, cs[i].a, cs[i].b)
}

/// `x` sits at table `t`.
pub open spec fn sits_at(g: Seq<Seq<Seat>>, t: int, x: GuestId) -> bool {
    exists|s: int| #[trigger] holds(g, t, s, x)
}

/// The Must groups have no repeats within and share nobody.
pub open spec fn groups_apart(groups: Seq<Seq<GuestId>>) -> bool {
    &&& forall|c: int| 0 <= c < groups.len() ==> (#[trigger] groups[c]).no_duplicates()
    &&& forall|c1: int, c2: int, x: GuestId|
        0 <= c1 < groups.len() && 0 <= c2 < groups.len() && c1 != c2 && #[trigger] groups[c1].contains(x)
            ==> !#[trigger] groups[c2].contains(x)
}

/// `x` belongs to one of the groups.
pub open spec fn in_some_group(groups: Seq<Seq<GuestId>>, x: GuestId) -> bool {
    exists|c: int| 0 <= c < groups.len() && #[trigger] groups[c].contains(x)
}

/// Both guests of every constraint belong to a group.
pub open spec fn groups_cover(cs: Seq<Constraint>, groups: Seq<Seq<GuestId>>) -> bool {
    forall|i: int| 0 <= i < cs.len() ==> in_some_group(groups, (#[trigger] cs[i]).a) && in_some_group(groups, cs[i].b)
}

/// What every seating that the solver returns satisfies: the tables have their sizes;
/// the unseated are exactly the guests of `order` without a seat; somebody is left out
/// only when every seat is taken; every seated guest is a guest of `order` or of a
/// group; and, when the groups share nobody and `order` has no repeats, nobody sits
/// twice and, when moreover every constrained guest is in a group, no Wont pair
/// shares a table.
pub open spec fn seating_laws(
    g: Seq<Seq<Seat>>,
    unseated: Seq<GuestId>,
    order: Seq<GuestId>,
    cs: Seq<Constraint>,
    caps: Seq<usize>,
    groups: Seq<Seq<GuestId>>,
) -> bool {
    &&& g.len() == caps.len()
    &&& forall|t: int| 0 <= t < caps.len() ==> (#[trigger] g[t]).len() == caps[t]
    &&& forall|x: GuestId| #[trigger] unseated.contains(x) <==> order.contains(x) && !is_seated(g, x)
    &&& order.no_duplicates() ==> unseated.no_duplicates()
    &&& unseated.len() > 0 ==> no_room(g)
    &&& forall|x: GuestId| #[trigger] is_seated(g, x) ==> order.contains(x) || in_some_group(groups, x)
    &&& groups_apart(groups) && order.no_duplicates() ==> one_seat_each(g)
    &&& groups_apart(groups) && order.no_duplicates() && groups_cover(cs, groups) ==> wont_kept(cs, g)
}

/// Some guest's Must group has more guests than `max`.
pub open spec fn has_oversized_group(cs: Seq<Constraint>, members: Set<GuestId>, max: usize) -> bool {
    exists|x: GuestId, g: Set<GuestId>|
        members.contains(x) && #[trigger] is_must_group(cs, x, g) && g.len() > max
}

/// Guests `a` and `b` sit at one table of `h`, and every other table is full or holds
/// somebody with a Wont constraint with `b`: no other table has an empty seat free of
/// `b`'s Wont partners.
pub open spec fn wont_stuck(cs: Seq<Constraint>, h: Seq<Seq<Seat>>, a: GuestId, b: GuestId) -> bool {
    exists|t: int|
        #![trigger h[t]]
        0 <= t < h.len() && (exists|s: int| 0 <= s < h[t].len() && #[trigger] h[t][s] == Some(a)) && (exists|s: int|
            0 <= s < h[t].len() && #[trigger] h[t][s] == Some(b)) && forall|i: int|
            #![trigger h[i]]
            0 <= i < h.len() && i != t ==> (forall|s: int| 0 <= s < h[i].len() ==> (#[trigger] h[i][s]) is Some) || (
            exists|s: int|
                0 <= s < h[i].len() && (#[trigger] h[i][s]) is Some && pair_kind(cs, b, h[i][s]->0) == Some(
                    LinkType::Wont,
                ))
}

/// A Wont error names a pair that sat at one table, after the Must groups were placed
/// and the earlier Wont pairs moved apart, with no other table able to take the second
/// guest.
pub open spec fn wont_failure_explained(
    cs: Seq<Constraint>,
    caps: Seq<usize>,
    groups: Seq<Seq<GuestId>>,
    r: Result<SeatingArrangement, SolveError>,
) -> bool {
    r is Err && r->Err_0 is UnsatisfiableWont ==> wont_stuck(
        cs,
        separation_reached(cs, cs, place_groups(empty_grid(caps), groups)),
        r->Err_0->UnsatisfiableWont_a,
        r->Err_0->UnsatisfiableWont_b,
    )
}

/// Each group lists its guests in the order of the depth-first walk along Must links
/// from its first guest, the guests of the earlier groups counting as visited.
pub open spec fn walked_groups(cs: Seq<Constraint>, groups: Seq<Seq<GuestId>>) -> bool {
    forall|c: int| 0 <= c < groups.len() ==> walked_group(cs, groups_before(groups, c), groups[c][0], #[trigger] groups[c])
}

/// What `solve` may give back for these guests, constraints and table sizes: the
/// outcome of placing the Must groups in some order that partitions them (each group
/// listed in its walk order) and the other guests in some order of their own, and with it the facts that hold whatever the
/// orders: which error comes on which inputs, and what a seating keeps.
pub open spec fn solve_admits(
    guest_ids: Seq<GuestId>,
    cs: Seq<Constraint>,
    members: Set<GuestId>,
    caps: Seq<usize>,
    r: Result<SeatingArrangement, SolveError>,
) -> bool {
    &&& exists|groups: Seq<Seq<GuestId>>, order: Seq<GuestId>|
        is_must_partition(cs, members, groups) && walked_groups(cs, groups) && wont_failure_explained(cs, caps, groups, r)
            && order.no_duplicates()
            && order.to_set() == guest_ids.to_set() && #[trigger] solve_outcome(guest_ids, order, cs, caps, groups, r)
    &&& caps.len() == 0 ==> r is Err && r->Err_0 is NoTables
    &&& caps.len() > 0 && total(caps) < guest_ids.len() ==> r is Err && r->Err_0 is InsufficientCapacity
        && r->Err_0->total == total(caps) && r->Err_0->needed == guest_ids.len()
    &&& caps.len() > 0 && total(caps) >= guest_ids.len() ==> ((r is Err && r->Err_0 is UnsatisfiableMust)
        <==> has_oversized_group(cs, members, largest(caps)))
    &&& r is Err && r->Err_0 is UnsatisfiableMust ==> {
        let component = r->Err_0->component;
        &&& r->Err_0->max_table == largest(caps)
        &&& component@.len() > largest(caps)
        &&& component@.no_duplicates()
        &&& members.contains(component@[0])
        &&& is_must_group(cs, component@[0], component@.to_set())
    }
    &&& r is Err && r->Err_0 is UnsatisfiableMust ==> (forall|i: int|
        0 <= i < caps.len() ==> #[trigger] caps[i] <= r->Err_0->max_table && caps[i] < r->Err_0->component@.len())
        && exists|i: int| 0 <= i < caps.len() && #[trigger] caps[i] == r->Err_0->max_table
    &&& caps.len() > 0 && total(caps) >= guest_ids.len() && !(r is Err && r->Err_0 is UnsatisfiableMust) ==> forall|
        x: GuestId,
        g: Set<GuestId>,
    | members.contains(x) && #[trigger] is_must_group(cs, x, g) ==> exists|i: int|
        0 <= i < caps.len() && g.len() <= #[trigger] caps[i]
    &&& r is Err && r->Err_0 is MustSeparated ==> exists|i: int|
        0 <= i < cs.len() && (#[trigger] cs[i]).kind == LinkType::Must && cs[i].a == r->Err_0->MustSeparated_a
            && cs[i].b == r->Err_0->MustSeparated_b
    &&& r is Err && r->Err_0 is UnsatisfiableWont ==> exists|i: int|
        0 <= i < cs.len() && (#[trigger] cs[i]).kind == LinkType::Wont && cs[i].a == r->Err_0->UnsatisfiableWont_a && cs[i].b
            == r->Err_0->UnsatisfiableWont_b
    &&& r is Ok ==> {
        let arr = r->Ok_0;
        let g = seat_grid(arr.tables@);
        &&& arr.tables@.len() == caps.len()
        &&& forall|t: int|
            0 <= t < caps.len() ==> (#[trigger] arr.tables@[t]).id == t && arr.tables@[t].capacity == caps[t]
                && arr.tables@[t].seats@.len() == caps[t]
        &&& forall|x: GuestId| #[trigger] arr.unseated@.contains(x) <==> guest_ids.contains(x) && !is_seated(g, x)
        &&& arr.unseated@.no_duplicates()
        &&& arr.unseated@.len() > 0 ==> no_room(g)
        &&& forall|x: GuestId| #[trigger] is_seated(g, x) ==> guest_ids.contains(x) || members.contains(x)
        &&& one_seat_each(g)
        &&& wont_kept(cs, g)
        &&& must_kept(cs, g)
    }
}

} // verus!
