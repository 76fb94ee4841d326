use std::collections::HashSet;
use vstd::prelude::*;
use vstd::std_specs::iter::IteratorSpec;

use crate::constraint::{
    adjacency, is_must_group, is_must_partition, lemma_adjacency_kinds, lemma_must_group_same, lemma_pair_kind_at,
    pair_kind, well_linked, Constraint, ConstraintGraph, LinkType,
};
use crate::guest::GuestId;
use crate::seating::{
    arrangement, best_group_seat, best_seat_for, can_take, co_seated, count_in, count_preferred,
    empty_grid, fill_row, first_free_seat, first_oversized, first_roomy_table, group_ties,
    groups_apart, groups_cover, has_oversized_group, in_some_group, is_best_group_seat,
    is_best_seat_for, is_first_free, is_first_oversized, is_first_refuge, is_first_roomy, is_free,
    is_seated, largest, next_to, no_room, not_seated, one_seat_each, place_group, place_groups,
    preferred, refuge, refuses, relocate, room, seat_anywhere, seat_at, seat_by_preference,
    seat_score, seated_set, seating_laws, separation_reached, wont_stuck, table_score, ranks_below, split_at, is_first_split, first_split, must_kept, separate, separate_all, sits_at, solve_admits,
    solve_outcome, spread, total, wont_at, wont_kept,
};
use crate::table::{
    adjacent_positions, earlier, free_positions, holds, lemma_adjacent_positions, lemma_free_positions,
    is_first_seat_of, lemma_occupants_len, lemma_occupied_count_bound, lemma_seat_of, occupied_count, occupants_at,
    seat_grid, seat_of, find_guest, Seat, SeatingArrangement, Table,
};
use crate::text::{decimal, decimal_text};
use crate::seq_lemmas::{lemma_take_last, lemma_push_contains, lemma_drop_last_contains, lemma_skip_step};

verus! {

broadcast use vstd::std_specs::hash::group_hash_axioms;

/// Why no seating could be made.
#[derive(Clone, Debug)]
pub enum SolveError {
    NoTables,
    InsufficientCapacity { total: usize, needed: usize },
    UnsatisfiableMust { component: Vec<GuestId>, max_table: usize },
    UnsatisfiableWont { a: GuestId, b: GuestId },
    MustSeparated { a: GuestId, b: GuestId },
}

/// What an error says to the user.
pub open spec fn error_message(e: SolveError) -> Seq<char> {
    match e {
        SolveError::NoTables => "No tables defined"@,
        SolveError::InsufficientCapacity { total, needed } => "Total capacity ("@ + decimal(total as nat)
            + ") is less than guest count ("@ + decimal(needed as nat) + ")"@,
        SolveError::UnsatisfiableMust { component, max_table } => "Must-component of size "@ + decimal(
            component@.len(),
        ) + " exceeds largest table capacity ("@ + decimal(max_table as nat) + ")"@,
        SolveError::UnsatisfiableWont { a, b } => "Cannot satisfy Wont constraint between guest "@ + decimal(
            a as nat,
        ) + " and "@ + decimal(b as nat),
        SolveError::MustSeparated { a, b } => "Cannot seat Must constraint between guest "@ + decimal(a as nat)
            + " and "@ + decimal(b as nat) + " at one table"@,
    }
}

impl SolveError {
    /// The error in words.
    pub fn to_string(&self) -> (r: String)
        ensures
            r@ == error_message(*self),
    {
        match self {
            SolveError::NoTables => String::from_str("No tables defined"),
            SolveError::InsufficientCapacity { total, needed } => {
                let mut r = String::from_str("Total capacity (");
                r.append(decimal_text(*total).as_str());
                r.append(") is less than guest count (");
                r.append(decimal_text(*needed).as_str());
                r.append(")");
                r
            },
            SolveError::UnsatisfiableMust { component, max_table } => {
                let mut r = String::from_str("Must-component of size ");
                r.append(decimal_text(component.len()).as_str());
                r.append(" exceeds largest table capacity (");
                r.append(decimal_text(*max_table).as_str());
                r.append(")");
                r
            },
            SolveError::UnsatisfiableWont { a, b } => {
                let mut r = String::from_str("Cannot satisfy Wont constraint between guest ");
                r.append(decimal_text(*a).as_str());
                r.append(" and ");
                r.append(decimal_text(*b).as_str());
                r
            },
            SolveError::MustSeparated { a, b } => {
                let mut r = String::from_str("Cannot seat Must constraint between guest ");
                r.append(decimal_text(*a).as_str());
                r.append(" and ");
                r.append(decimal_text(*b).as_str());
                r.append(" at one table");
                r
            },
        }
    }
}

// ---------------------------------------------------------------- the solver

/// Every table's size is its number of seats.
pub open spec fn sized(tables: Seq<Table>) -> bool {
    forall|t: int| 0 <= t < tables.len() ==> (#[trigger] tables[t]).capacity == tables[t].seats@.len()
}

/// The tables keep their number, their size and their count.
pub open spec fn same_tables(a: Seq<Table>, b: Seq<Table>) -> bool {
    &&& a.len() == b.len()
    &&& forall|t: int| 0 <= t < a.len() ==> (#[trigger] a[t]).id == b[t].id && a[t].capacity == b[t].capacity
        && a[t].seats@.len() == b[t].seats@.len()
}

proof fn lemma_seat_at_grid(old_t: Seq<Table>, new_t: Seq<Table>, t: int, s: int, v: Seat)
    requires
        0 <= t < old_t.len(),
        0 <= s < old_t[t].seats@.len(),
        new_t.len() == old_t.len(),
        forall|i: int| 0 <= i < old_t.len() && i != t ==> #[trigger] new_t[i] == old_t[i],
        new_t[t].seats@ == old_t[t].seats@.update(s, v),
    ensures
        seat_grid(new_t) == seat_at(seat_grid(old_t), t, s, v),
{
    assert(seat_grid(new_t) =~= seat_at(seat_grid(old_t), t, s, v));
}

/// Sets seat `s` of table `t`.
fn put(tables: &mut Vec<Table>, t: usize, s: usize, v: Seat)
    requires
        t < old(tables)@.len(),
        s < old(tables)@[t as int].seats@.len(),
    ensures
        same_tables(old(tables)@, final(tables)@),
        seat_grid(final(tables)@) == seat_at(seat_grid(old(tables)@), t as int, s as int, v),
{
    let ghost before = tables@;
    tables[t].seats.set(s, v);
    proof {
        lemma_seat_at_grid(before, tables@, t as int, s as int, v);
    }
}

proof fn lemma_first_free_unique(g: Seq<Seq<Seat>>, t: int, s: int)
    requires
        is_first_free(g, t, s),
    ensures
        first_free_seat(g) == Some((t, s)),
{
    assert(is_first_free(g, (t, s).0, (t, s).1));
    let p = choose|p: (int, int)| is_first_free(g, p.0, p.1);
    assert(is_free(g, p.0, p.1));
    assert(is_free(g, t, s));
}

/// The first empty seat, table by table.
fn find_any_free_seat(tables: &Vec<Table>) -> (r: Option<(usize, usize)>)
    ensures
        match r {
            Some((t, s)) => first_free_seat(seat_grid(tables@)) == Some((t as int, s as int)) && is_free(
                seat_grid(tables@),
                t as int,
                s as int,
            ),
            None => first_free_seat(seat_grid(tables@)) is None && no_room(seat_grid(tables@)),
        },
{
    let ghost g = seat_grid(tables@);
    let mut t: usize = 0;
    while t < tables.len()
        invariant
            t <= tables.len(),
            g == seat_grid(tables@),
            forall|t2: int, s2: int| #[trigger] is_free(g, t2, s2) ==> t2 >= t,
        decreases tables.len() - t,
    {
        let free = tables[t].free_seat_indices();
        let _n = tables[t].seats.len();
        proof {
            lemma_free_positions(g[t as int]);
        }
        if free.len() > 0 {
            let s = free[0];
            proof {
                assert forall|t2: int, s2: int| #[trigger] is_free(g, t2, s2) implies !earlier(t2, s2, t as int, s as int) by {
                    if t2 == t {
                        let k = choose|k: int| 0 <= k < free@.len() && #[trigger] free@[k] == s2;
                        if k > 0 {
                            assert(free@[0] < free@[k]);
                        }
                    }
                }
                lemma_first_free_unique(g, t as int, s as int);
            }
            return Some((t, s));
        }
        proof {
            assert forall|t2: int, s2: int| #[trigger] is_free(g, t2, s2) implies t2 >= t + 1 by {
                if t2 == t {
                    let k = choose|k: int| 0 <= k < free@.len() && #[trigger] free@[k] == s2;
                }
            }
        }
        t += 1;
    }
    None
}

proof fn lemma_best_seat_unique(cs: Seq<Constraint>, guest: GuestId, g: Seq<Seq<Seat>>, t: int, s: int)
    requires
        is_best_seat_for(cs, guest, g, t, s),
    ensures
        best_seat_for(cs, guest, g) == Some((t, s)),
{
    assert(is_best_seat_for(cs, guest, g, (t, s).0, (t, s).1));
    let p = choose|p: (int, int)| is_best_seat_for(cs, guest, g, p.0, p.1);
    assert(is_free(g, p.0, p.1));
    assert(is_free(g, t, s));
}

/// The Must/Should partners of `guest`.
fn preferred_ids(guest: GuestId, constraints: &ConstraintGraph) -> (r: HashSet<GuestId>)
    ensures
        forall|n: GuestId| #[trigger] r@.contains(n) <==> preferred(constraints.links(), guest, n),
{
    proof {
        use_type_invariant(constraints);
    }
    let neighbors = constraints.neighbors(guest);
    let ghost cs = constraints.links();
    proof {
        constraints.lemma_wf();
        lemma_adjacency_kinds(cs, guest);
    }
    let mut pref_ids: HashSet<GuestId> = HashSet::new();
    let mut k: usize = 0;
    while k < neighbors.len()
        invariant
            k <= neighbors.len(),
            neighbors@ == adjacency(cs, guest),
            forall|n: GuestId|
                #[trigger] pref_ids@.contains(n) <==> exists|j: int|
                    0 <= j < k && (#[trigger] neighbors@[j]).0 == n && (neighbors@[j].1 == LinkType::Must
                        || neighbors@[j].1 == LinkType::Should),
        decreases neighbors.len() - k,
    {
        let (id, kind) = neighbors[k];
        if kind == LinkType::Must || kind == LinkType::Should {
            pref_ids.insert(id);
        }
        k += 1;
        proof {
            assert forall|n: GuestId|
                #[trigger] pref_ids@.contains(n) <==> exists|j: int|
                    0 <= j < k && (#[trigger] neighbors@[j]).0 == n && (neighbors@[j].1 == LinkType::Must
                        || neighbors@[j].1 == LinkType::Should) by {
                if pref_ids@.contains(n) && n == id && (kind == LinkType::Must || kind == LinkType::Should) {
                    assert(neighbors@[k - 1].0 == n);
                }
            }
        }
    }
    proof {
        assert forall|n: GuestId| #[trigger] pref_ids@.contains(n) <==> preferred(cs, guest, n) by {
            if pref_ids@.contains(n) {
                let j = choose|j: int|
                    0 <= j < neighbors@.len() && (#[trigger] neighbors@[j]).0 == n && (neighbors@[j].1
                        == LinkType::Must || neighbors@[j].1 == LinkType::Should);
                assert(pair_kind(cs, guest, neighbors@[j].0) == Some(neighbors@[j].1));
            }
            if preferred(cs, guest, n) {
                let k = pair_kind(cs, guest, n)->0;
                assert(pair_kind(cs, guest, n) is Some);
                assert(neighbors@.contains((n, k)));
                let j = choose|j: int| 0 <= j < neighbors@.len() && neighbors@[j] == (n, k);
                assert(neighbors@[j].0 == n);
            }
        }
    }
    pref_ids
}

/// How many of `xs` are in `pref`.
fn count_preferred_in(xs: &Vec<GuestId>, pref: &HashSet<GuestId>, Ghost(cs): Ghost<Seq<Constraint>>, Ghost(guest): Ghost<GuestId>) -> (r: usize)
    requires
        forall|n: GuestId| #[trigger] pref@.contains(n) <==> preferred(cs, guest, n),
    ensures
        r == count_preferred(cs, guest, xs@),
        r <= xs@.len(),
{
    let mut n: usize = 0;
    let mut i: usize = 0;
    while i < xs.len()
        invariant
            i <= xs.len(),
            n <= i,
            forall|m: GuestId| #[trigger] pref@.contains(m) <==> preferred(cs, guest, m),
            n == count_preferred(cs, guest, xs@.take(i as int)),
        decreases xs.len() - i,
    {
        proof {
            lemma_take_last(xs@, i as int);
        }
        if pref.contains(&xs[i]) {
            n += 1;
        }
        i += 1;
    }
    proof {
        assert(xs@.take(xs.len() as int) =~= xs@);
    }
    n
}

/// How many of the guests at `seats` are in `pref`.
fn count_partners_at(seats: &Vec<Seat>, pref: &HashSet<GuestId>, Ghost(cs): Ghost<Seq<Constraint>>, Ghost(guest): Ghost<GuestId>) -> (r: usize)
    requires
        forall|n: GuestId| #[trigger] pref@.contains(n) <==> preferred(cs, guest, n),
    ensures
        r == table_score(cs, guest, seats@),
        r <= seats@.len(),
{
    let mut n: usize = 0;
    let mut i: usize = 0;
    while i < seats.len()
        invariant
            i <= seats.len(),
            n <= i,
            forall|m: GuestId| #[trigger] pref@.contains(m) <==> preferred(cs, guest, m),
            n == table_score(cs, guest, seats@.take(i as int)),
        decreases seats.len() - i,
    {
        proof {
            lemma_take_last(seats@, i as int);
        }
        match seats[i] {
            Some(p) => {
                if pref.contains(&p) {
                    n += 1;
                }
            },
            None => {},
        }
        i += 1;
    }
    proof {
        assert(seats@.take(seats.len() as int) =~= seats@);
    }
    n
}

/// The best empty seat for `guest`: the first one, table by table, at a table
/// holding the most of the guest's Must and Should partners and, among those tables,
/// with the highest seat score; none when every seat is taken.
fn score_tables_for_guest(guest: GuestId, constraints: &ConstraintGraph, tables: &Vec<Table>) -> (r: Option<(usize, usize)>)
    requires
        sized(tables@),
    ensures
        match r {
            Some((t, s)) => best_seat_for(constraints.links(), guest, seat_grid(tables@)) == Some((t as int, s as int))
                && is_free(seat_grid(tables@), t as int, s as int),
            None => best_seat_for(constraints.links(), guest, seat_grid(tables@)) is None && no_room(seat_grid(tables@)),
        },
{
    proof {
        use_type_invariant(constraints);
    }
    let ghost cs = constraints.links();
    let ghost g = seat_grid(tables@);
    let pref_ids = preferred_ids(guest, constraints);
    // (table, seat, partners at the table, seat score)
    let mut best: Option<(usize, usize, usize, i32)> = None;
    let mut ti: usize = 0;
    while ti < tables.len()
        invariant
            ti <= tables.len(),
            g == seat_grid(tables@),
            sized(tables@),
            forall|n: GuestId| #[trigger] pref_ids@.contains(n) <==> preferred(cs, guest, n),
            match best {
                None => forall|t2: int, s2: int| #[trigger] is_free(g, t2, s2) ==> t2 >= ti,
                Some((bt, bs, bts, bsc)) => is_free(g, bt as int, bs as int) && bts == table_score(cs, guest, g[bt as int])
                    && bsc == seat_score(cs, guest, g, bt as int, bs as int) && bt < ti && forall|t2: int, s2: int|
                    #[trigger] is_free(g, t2, s2) && t2 < ti ==> ranks_below(cs, guest, g, t2, s2, bt as int, bs as int),
            },
        decreases tables.len() - ti,
    {
        let free = tables[ti].free_seat_indices();
        let ghost row = g[ti as int];
        proof {
            lemma_free_positions(row);
            assert(row == tables@[ti as int].seats@);
        }
        let ts: usize = if free.len() > 0 {
            count_partners_at(&tables[ti].seats, &pref_ids, Ghost(cs), Ghost(guest))
        } else {
            0
        };
        let mut k: usize = 0;
        while k < free.len()
            invariant
                ti < tables.len(),
                k <= free.len(),
                g == seat_grid(tables@),
                sized(tables@),
                row == g[ti as int],
                free@ == free_positions(row),
                free@.len() > 0 ==> ts == table_score(cs, guest, row),
                forall|kk: int| 0 <= kk < free@.len() ==> (#[trigger] free@[kk]) < row.len() && row[free@[kk] as int] is None,
                forall|s: int| 0 <= s < row.len() && #[trigger] row[s] is None ==> exists|kk: int|
                    0 <= kk < free@.len() && #[trigger] free@[kk] == s,
                forall|i: int, j: int| 0 <= i < j < free@.len() ==> #[trigger] free@[i] < #[trigger] free@[j],
                forall|n: GuestId| #[trigger] pref_ids@.contains(n) <==> preferred(cs, guest, n),
                match best {
                    None => forall|t2: int, s2: int| #[trigger] is_free(g, t2, s2) ==> t2 > ti || (t2 == ti && s2 >= (if k < free@.len() { free@[k as int] as int } else { row.len() as int })),
                    Some((bt, bs, bts, bsc)) => is_free(g, bt as int, bs as int) && bts == table_score(cs, guest, g[bt as int])
                        && bsc == seat_score(cs, guest, g, bt as int, bs as int)
                        && earlier(bt as int, bs as int, ti as int, if k < free@.len() { free@[k as int] as int } else { row.len() as int })
                        && forall|t2: int, s2: int| #[trigger] is_free(g, t2, s2) && earlier(t2, s2, ti as int, if k < free@.len() { free@[k as int] as int } else { row.len() as int })
                            ==> ranks_below(cs, guest, g, t2, s2, bt as int, bs as int),
                },
            decreases free.len() - k,
        {
            let si = free[k];
            proof {
                assert(tables@[ti as int].capacity == row.len());
                lemma_adjacent_positions(tables@[ti as int].capacity, si);
            }
            let adjacent = tables[ti].neighbors(si);
            proof {
                lemma_occupants_len(row, adjacent_positions(tables@[ti as int].capacity, si));
            }
            let cnt = count_preferred_in(&adjacent, &pref_ids, Ghost(cs), Ghost(guest));
            let score: i32 = (cnt as i32) * 100 + if adjacent.len() == 0 {
                0
            } else {
                1
            };
            proof {
                assert(score == seat_score(cs, guest, g, ti as int, si as int));
                if k + 1 < free@.len() {
                    assert(free@[k as int] < free@[k + 1]);
                }
                assert forall|s2: int| 0 <= s2 < row.len() && #[trigger] row[s2] is None && si < s2 implies s2 >= (if k + 1 < free@.len() { free@[k + 1] as int } else { row.len() as int }) by {
                    let kk = choose|kk: int| 0 <= kk < free@.len() && #[trigger] free@[kk] == s2;
                    if kk <= k as int {
                        if kk < k as int {
                            assert(free@[kk] < free@[k as int]);
                        }
                    } else if kk > k + 1 {
                        assert(free@[k + 1] < free@[kk]);
                    }
                }
            }
            let take = match best {
                None => true,
                Some((_, _, bts, bsc)) => ts > bts || (ts == bts && score > bsc),
            };
            if take {
                best = Some((ti, si, ts, score));
            }
            k += 1;
        }
        ti += 1;
    }
    match best {
        Some((bt, bs, _, _)) => {
            proof {
                lemma_best_seat_unique(cs, guest, g, bt as int, bs as int);
            }
            Some((bt, bs))
        },
        None => None,
    }
}

/// Seating `x` on an empty seat adds `x` to the seated guests and nobody else.
proof fn lemma_seat_new(g: Seq<Seq<Seat>>, t: int, s: int, x: GuestId)
    requires
        is_free(g, t, s),
    ensures
        seated_set(seat_at(g, t, s, Some(x))) == seated_set(g).insert(x),
{
    let n = seat_at(g, t, s, Some(x));
    assert forall|y: GuestId| is_seated(n, y) <==> (is_seated(g, y) || y == x) by {
        if is_seated(n, y) {
            let (t2, s2) = choose|t2: int, s2: int| #[trigger] holds(n, t2, s2, y);
            if !(t2 == t && s2 == s) {
                assert(holds(g, t2, s2, y));
            }
        }
        if is_seated(g, y) {
            let (t2, s2) = choose|t2: int, s2: int| #[trigger] holds(g, t2, s2, y);
            assert(holds(n, t2, s2, y));
        }
        if y == x {
            assert(holds(n, t, s, y));
        }
    }
    assert(seated_set(n) =~= seated_set(g).insert(x));
}

/// Seating `x` on an empty seat changes nobody else's seats.
proof fn lemma_seat_others(g: Seq<Seq<Seat>>, t: int, s: int, x: GuestId)
    requires
        is_free(g, t, s),
    ensures
        forall|t2: int, s2: int, y: GuestId|
            y != x ==> (#[trigger] holds(seat_at(g, t, s, Some(x)), t2, s2, y) <==> holds(g, t2, s2, y)),
        forall|t2: int, s2: int, y: GuestId| #[trigger] holds(g, t2, s2, y) ==> holds(seat_at(g, t, s, Some(x)), t2, s2, y),
        holds(seat_at(g, t, s, Some(x)), t, s, x),
        forall|t2: int, s2: int| #[trigger] is_free(seat_at(g, t, s, Some(x)), t2, s2) ==> is_free(g, t2, s2),
{
}

/// Seating somebody not yet seated keeps everybody on one seat.
proof fn lemma_seat_one(g: Seq<Seq<Seat>>, t: int, s: int, x: GuestId)
    requires
        is_free(g, t, s),
        !is_seated(g, x),
        one_seat_each(g),
    ensures
        one_seat_each(seat_at(g, t, s, Some(x))),
{
    let n = seat_at(g, t, s, Some(x));
    lemma_seat_others(g, t, s, x);
    assert forall|t1: int, s1: int, t2: int, s2: int, y: GuestId|
        #[trigger] holds(n, t1, s1, y) && #[trigger] holds(n, t2, s2, y) implies t1 == t2 && s1 == s2 by {
        if y == x {
            if !(t1 == t && s1 == s) {
                assert(holds(g, t1, s1, x));
            }
            if !(t2 == t && s2 == s) {
                assert(holds(g, t2, s2, x));
            }
        } else {
            assert(holds(g, t1, s1, y) && holds(g, t2, s2, y));
        }
    }
}

/// Seating somebody without constraints keeps the Wont pairs apart.
proof fn lemma_seat_wont(cs: Seq<Constraint>, g: Seq<Seq<Seat>>, t: int, s: int, x: GuestId)
    requires
        is_free(g, t, s),
        wont_kept(cs, g),
        forall|i: int| 0 <= i < cs.len() ==> (#[trigger] cs[i]).a != x && cs[i].b != x,
    ensures
        wont_kept(cs, seat_at(g, t, s, Some(x))),
{
    let n = seat_at(g, t, s, Some(x));
    lemma_seat_others(g, t, s, x);
    assert forall|i: int| 0 <= i < cs.len() && (#[trigger] cs[i]).kind == LinkType::Wont implies !co_seated(n, cs[i].a, cs[i].b) by {
        if co_seated(n, cs[i].a, cs[i].b) {
            let (t1, s1, s2) = choose|t1: int, s1: int, s2: int| #[trigger] holds(n, t1, s1, cs[i].a) && #[trigger] holds(n, t1, s2, cs[i].b);
            assert(holds(g, t1, s1, cs[i].a) && holds(g, t1, s2, cs[i].b));
        }
    }
}

proof fn lemma_occupied_update(row: Seq<Seat>, f: int, x: GuestId)
    requires
        0 <= f < row.len(),
        row[f] is None,
    ensures
        occupied_count(row.update(f, Some(x))) == occupied_count(row) + 1,
    decreases row.len(),
{
    let u = row.update(f, Some(x));
    if f == row.len() - 1 {
        assert(u.drop_last() =~= row.drop_last());
    } else {
        assert(u.drop_last() =~= row.drop_last().update(f, Some(x)));
        lemma_occupied_update(row.drop_last(), f, x);
    }
}

/// Taking an empty seat leaves one empty seat less.
proof fn lemma_room_after(row: Seq<Seat>, f: int, x: GuestId)
    requires
        row.len() <= usize::MAX,
        0 <= f < row.len(),
        row[f] is None,
    ensures
        room(row.update(f, Some(x))) + 1 == room(row),
{
    lemma_free_positions(row);
    lemma_free_positions(row.update(f, Some(x)));
    lemma_occupied_update(row, f, x);
}

/// A row without room has no empty seat; a row with room has one at its first free position.
proof fn lemma_room_seats(g: Seq<Seq<Seat>>, t: int)
    requires
        0 <= t < g.len(),
        g[t].len() <= usize::MAX,
    ensures
        room(g[t]) == 0 ==> forall|s: int| !#[trigger] is_free(g, t, s),
        room(g[t]) > 0 ==> is_free(g, t, free_positions(g[t])[0] as int),
{
    lemma_free_positions(g[t]);
    if room(g[t]) == 0 {
        assert forall|s: int| !#[trigger] is_free(g, t, s) by {
            if is_free(g, t, s) {
                let k = choose|k: int| 0 <= k < free_positions(g[t]).len() && #[trigger] free_positions(g[t])[k] == s;
            }
        }
    }
}

/// The room of a sized table is its size less the taken seats.
proof fn lemma_room(tables: Seq<Table>, t: int)
    requires
        sized(tables),
        0 <= t < tables.len(),
        tables[t].seats@.len() <= usize::MAX,
    ensures
        room(seat_grid(tables)[t]) == tables[t].capacity - occupied_count(tables[t].seats@),
        occupied_count(tables[t].seats@) <= tables[t].capacity,
{
    lemma_free_positions(tables[t].seats@);
}

proof fn lemma_first_roomy_unique(g: Seq<Seq<Seat>>, n: nat, t: int)
    requires
        is_first_roomy(g, n, t),
    ensures
        first_roomy_table(g, n) == Some(t),
{
    let p = choose|p: int| is_first_roomy(g, n, p);
    if p < t {
        assert(room(g[p]) < n);
    } else if t < p {
        assert(room(g[t]) < n);
    }
}

proof fn lemma_best_group_seat_unique(row: Seq<Seat>, group: Seq<GuestId>, s: int)
    requires
        is_best_group_seat(row, group, s),
    ensures
        best_group_seat(row, group) == s,
{
    let p = choose|p: int| is_best_group_seat(row, group, p);
    assert(row[p] is None);
    assert(row[s] is None);
}

/// Whether `x` is one of `xs`.
fn has(xs: &Vec<GuestId>, x: GuestId) -> (r: bool)
    ensures
        r == xs@.contains(x),
{
    let mut i: usize = 0;
    while i < xs.len()
        invariant
            i <= xs.len(),
            forall|j: int| 0 <= j < i ==> xs@[j] != x,
        decreases xs.len() - i,
    {
        if xs[i] == x {
            return true;
        }
        i += 1;
    }
    false
}

/// How many of `xs` are in `group`.
fn count_in_group(xs: &Vec<GuestId>, group: &Vec<GuestId>) -> (r: usize)
    ensures
        r == count_in(xs@, group@),
        r <= xs@.len(),
{
    let mut n: usize = 0;
    let mut i: usize = 0;
    while i < xs.len()
        invariant
            i <= xs.len(),
            n <= i,
            n == count_in(xs@.take(i as int), group@),
        decreases xs.len() - i,
    {
        proof {
            lemma_take_last(xs@, i as int);
        }
        if has(group, xs[i]) {
            n += 1;
        }
        i += 1;
    }
    proof {
        assert(xs@.take(xs.len() as int) =~= xs@);
    }
    n
}

/// The first empty seat of table `t` with the most members of `group` next to it.
fn best_seat_for_group(t: usize, tables: &Vec<Table>, group: &Vec<GuestId>) -> (r: usize)
    requires
        sized(tables@),
        t < tables@.len(),
        room(seat_grid(tables@)[t as int]) > 0,
    ensures
        r == best_group_seat(seat_grid(tables@)[t as int], group@),
        is_best_group_seat(seat_grid(tables@)[t as int], group@, r as int),
{
    let ghost row = seat_grid(tables@)[t as int];
    let free = tables[t].free_seat_indices();
    let _n = tables[t].seats.len();
    proof {
        lemma_free_positions(row);
    }
    let mut best: Option<(usize, usize)> = None;
    let mut k: usize = 0;
    while k < free.len()
        invariant
            k <= free.len(),
            t < tables@.len(),
            sized(tables@),
            row == seat_grid(tables@)[t as int],
            free@ == free_positions(row),
            forall|kk: int| 0 <= kk < free@.len() ==> (#[trigger] free@[kk]) < row.len() && row[free@[kk] as int] is None,
            forall|s: int| 0 <= s < row.len() && #[trigger] row[s] is None ==> exists|kk: int|
                0 <= kk < free@.len() && #[trigger] free@[kk] == s,
            forall|i: int, j: int| 0 <= i < j < free@.len() ==> #[trigger] free@[i] < #[trigger] free@[j],
            match best {
                None => k == 0,
                Some((bs, bc)) => 0 <= bs < row.len() && row[bs as int] is None && bc == group_ties(row, bs as int, group@)
                    && bs < (if k < free@.len() { free@[k as int] as int } else { row.len() as int })
                    && forall|s2: int| 0 <= s2 < row.len() && #[trigger] row[s2] is None && s2 < (if k < free@.len() { free@[k as int] as int } else { row.len() as int }) ==> group_ties(row, s2, group@) <= bc && (s2 < bs ==> group_ties(row, s2, group@) < bc),
            },
        decreases free.len() - k,
    {
        let seat = free[k];
        proof {
            assert(tables@[t as int].capacity == row.len());
            lemma_adjacent_positions(tables@[t as int].capacity, seat);
        }
        let neighbors = tables[t].neighbors(seat);
        let same = count_in_group(&neighbors, group);
        proof {
            assert(same == group_ties(row, seat as int, group@));
            if k + 1 < free@.len() {
                assert(free@[k as int] < free@[k + 1]);
            }
            assert forall|s2: int| 0 <= s2 < row.len() && #[trigger] row[s2] is None && seat < s2 implies s2 >= (if k + 1 < free@.len() { free@[k + 1] as int } else { row.len() as int }) by {
                let kk = choose|kk: int| 0 <= kk < free@.len() && #[trigger] free@[kk] == s2;
                if kk <= k as int {
                    if kk < k as int {
                        assert(free@[kk] < free@[k as int]);
                    }
                } else if kk > k + 1 {
                    assert(free@[k + 1] < free@[kk]);
                }
            }
            if k == 0 {
                assert forall|s2: int| 0 <= s2 < row.len() && #[trigger] row[s2] is None implies s2 >= seat by {
                    let kk = choose|kk: int| 0 <= kk < free@.len() && #[trigger] free@[kk] == s2;
                    if kk > 0 {
                        assert(free@[0] < free@[kk]);
                    }
                }
            }
        }
        let take = match best {
            None => true,
            Some((_, count)) => same > count,
        };
        if take {
            best = Some((seat, same));
        }
        k += 1;
    }
    proof {
        assert(free@.len() > 0);
    }
    match best {
        Some((bs, _)) => {
            proof {
                lemma_best_group_seat_unique(row, group@, bs as int);
            }
            bs
        },
        None => 0,
    }
}

fn copy_ids(xs: &Vec<GuestId>) -> (r: Vec<GuestId>)
    ensures
        r@ == xs@,
{
    let mut r: Vec<GuestId> = Vec::new();
    let mut i: usize = 0;
    while i < xs.len()
        invariant
            i <= xs.len(),
            r@ == xs@.take(i as int),
        decreases xs.len() - i,
    {
        proof {
            lemma_take_last(xs@, i as int);
        }
        r.push(xs[i]);
        i += 1;
    }
    proof {
        assert(xs@.take(xs.len() as int) =~= xs@);
    }
    r
}

proof fn lemma_same_tables(a: Seq<Table>, b: Seq<Table>, c: Seq<Table>)
    requires
        same_tables(a, b),
        same_tables(b, c),
    ensures
        same_tables(a, c),
{
    assert forall|t: int| 0 <= t < a.len() implies (#[trigger] a[t]).id == c[t].id && a[t].capacity == c[t].capacity
        && a[t].seats@.len() == c[t].seats@.len() by {
        assert(b[t].id == c[t].id);
    }
}

proof fn lemma_sized_kept(a: Seq<Table>, b: Seq<Table>)
    requires
        same_tables(a, b),
        sized(a),
    ensures
        sized(b),
        seat_grid(a).len() == seat_grid(b).len(),
{
    assert forall|t: int| 0 <= t < b.len() implies (#[trigger] b[t]).capacity == b[t].seats@.len() by {
        assert(a[t].capacity == b[t].capacity);
    }
}

proof fn lemma_spread_step(g: Seq<Seq<Seat>>, t: int, waiting: Seq<GuestId>, group: Seq<GuestId>)
    requires
        waiting.len() > 0,
        0 <= t < g.len(),
        room(g[t]) > 0,
    ensures
        spread(g, t, waiting, group) == spread(
            seat_at(g, t, best_group_seat(g[t], group), Some(waiting[0])),
            t,
            waiting.drop_first(),
            group,
        ),
{
}

proof fn lemma_spread_next(g: Seq<Seq<Seat>>, t: int, waiting: Seq<GuestId>, group: Seq<GuestId>)
    requires
        0 <= t < g.len(),
        waiting.len() == 0 || room(g[t]) == 0,
    ensures
        spread(g, t, waiting, group) == spread(g, t + 1, waiting, group),
{
    if waiting.len() == 0 {
        assert(spread(g, t + 1, waiting, group) == g);
    }
}

proof fn lemma_spread_done(g: Seq<Seq<Seat>>, t: int, waiting: Seq<GuestId>, group: Seq<GuestId>)
    requires
        0 <= t,
        t >= g.len() || waiting.len() == 0,
    ensures
        spread(g, t, waiting, group) == g,
{
}

proof fn lemma_fill_step(row: Seq<Seat>, gs: Seq<GuestId>, k: int)
    requires
        0 <= k < gs.len(),
    ensures
        fill_row(row, gs.skip(k)) == fill_row(
            if free_positions(row).len() > 0 {
                row.update(free_positions(row)[0] as int, Some(gs[k]))
            } else {
                row
            },
            gs.skip(k + 1),
        ),
{
    assert(gs.skip(k)[0] == gs[k]);
    assert(gs.skip(k).drop_first() =~= gs.skip(k + 1));
}

/// Filling a row that has room for everybody seats everybody and moves nobody.
proof fn lemma_fill_row_seats_all(row: Seq<Seat>, gs: Seq<GuestId>)
    requires
        row.len() <= usize::MAX,
        room(row) >= gs.len(),
    ensures
        fill_row(row, gs).len() == row.len(),
        forall|s: int| 0 <= s < row.len() && (#[trigger] row[s]) is Some ==> fill_row(row, gs)[s] == row[s],
        forall|k: int| 0 <= k < gs.len() ==> fill_row(row, gs).contains(Some(#[trigger] gs[k])),
    decreases gs.len(),
{
    if gs.len() > 0 {
        lemma_free_positions(row);
        let f = free_positions(row)[0] as int;
        let next = row.update(f, Some(gs[0]));
        lemma_room_after(row, f, gs[0]);
        lemma_fill_row_seats_all(next, gs.drop_first());
        let out = fill_row(row, gs);
        assert(out == fill_row(next, gs.drop_first()));
        assert forall|s: int| 0 <= s < row.len() && (#[trigger] row[s]) is Some implies out[s] == row[s] by {
            assert(s != f);
            assert(next[s] == row[s]);
        }
        assert forall|k: int| 0 <= k < gs.len() implies out.contains(Some(#[trigger] gs[k])) by {
            if k == 0 {
                assert(next[f] is Some);
                assert(out[f] == Some(gs[0]));
            } else {
                assert(gs.drop_first()[k - 1] == gs[k]);
            }
        }
    }
}

/// Filling a row whose first `m` seats are taken and whose others are empty seats the
/// guests of `gs` on the next seats, one after the other.
proof fn lemma_fill_row_in_order(row: Seq<Seat>, gs: Seq<GuestId>, m: int)
    requires
        row.len() <= usize::MAX,
        0 <= m,
        m + gs.len() <= row.len(),
        forall|j: int| 0 <= j < m ==> (#[trigger] row[j]) is Some,
        forall|j: int| m <= j < row.len() ==> (#[trigger] row[j]) is None,
    ensures
        fill_row(row, gs).len() == row.len(),
        forall|k: int| 0 <= k < gs.len() ==> fill_row(row, gs)[m + k] == Some(#[trigger] gs[k]),
        forall|j: int| 0 <= j < m ==> fill_row(row, gs)[j] == #[trigger] row[j],
    decreases gs.len(),
{
    if gs.len() > 0 {
        lemma_free_positions(row);
        let fp = free_positions(row);
        assert(row[m] is None);
        let kk = choose|kk: int| 0 <= kk < fp.len() && #[trigger] fp[kk] == m;
        assert(fp[0] as int >= m) by {
            assert(row[fp[0] as int] is None);
        }
        if kk > 0 {
            assert(fp[0] < fp[kk]);
        }
        assert(fp[0] == m);
        let next = row.update(m, Some(gs[0]));
        let rest = gs.drop_first();
        lemma_fill_row_in_order(next, rest, m + 1);
        assert(fill_row(row, gs) == fill_row(next, rest));
        assert forall|k: int| 0 <= k < gs.len() implies fill_row(row, gs)[m + k] == Some(#[trigger] gs[k]) by {
            if k > 0 {
                assert(rest[k - 1] == gs[k]);
                assert(fill_row(next, rest)[m + 1 + (k - 1)] == Some(rest[k - 1]));
            } else {
                assert(fill_row(next, rest)[m] == next[m]);
            }
        }
        assert forall|j: int| 0 <= j < m implies fill_row(row, gs)[j] == #[trigger] row[j] by {
            assert(fill_row(next, rest)[j] == next[j]);
        }
    }
}

/// A Must group placed at an empty table sits side by side: its guests take seats
/// 0, 1, 2, ... of that table in the group's order.
pub proof fn lemma_group_side_by_side(g: Seq<Seq<Seat>>, group: Seq<GuestId>, t: int)
    requires
        group.len() > 0,
        first_roomy_table(g, group.len()) == Some(t),
        g[t].len() <= usize::MAX,
        forall|s: int| 0 <= s < g[t].len() ==> (#[trigger] g[t][s]) is None,
    ensures
        forall|k: int| 0 <= k < group.len() ==> holds(place_group(g, group), t, k, #[trigger] group[k]),
{
    let p = choose|p: int| is_first_roomy(g, group.len(), p);
    assert(is_first_roomy(g, group.len(), p));
    lemma_free_positions(g[t]);
    lemma_occupied_count_zero(g[t]);
    lemma_fill_row_in_order(g[t], group, 0);
    assert forall|k: int| 0 <= k < group.len() implies holds(place_group(g, group), t, k, #[trigger] group[k]) by {
        assert(fill_row(g[t], group)[0 + k] == Some(group[k]));
    }
}

/// A row of empty seats has nobody seated.
proof fn lemma_occupied_count_zero(row: Seq<Seat>)
    requires
        forall|s: int| 0 <= s < row.len() ==> (#[trigger] row[s]) is None,
    ensures
        occupied_count(row) == 0,
    decreases row.len(),
{
    if row.len() > 0 {
        assert forall|s: int| 0 <= s < row.drop_last().len() implies (#[trigger] row.drop_last()[s]) is None by {
            assert(row.drop_last()[s] == row[s]);
        }
        lemma_occupied_count_zero(row.drop_last());
        assert(row[row.len() - 1] is None);
    }
}

/// A Must group is seated at one table, all of it, when some table has room for the
/// whole group: the first such table.
pub proof fn lemma_group_sits_together(g: Seq<Seq<Seat>>, group: Seq<GuestId>, t: int)
    requires
        group.len() > 0,
        first_roomy_table(g, group.len()) == Some(t),
        forall|i: int| 0 <= i < g.len() ==> (#[trigger] g[i]).len() <= usize::MAX,
    ensures
        forall|k: int| 0 <= k < group.len() ==> sits_at(place_group(g, group), t, #[trigger] group[k]),
        forall|k: int, j: int|
            0 <= k < group.len() && 0 <= j < group.len() ==> co_seated(place_group(g, group), #[trigger] group[k], #[trigger] group[j]),
{
    let p = choose|p: int| is_first_roomy(g, group.len(), p);
    assert(is_first_roomy(g, group.len(), p));
    lemma_fill_row_seats_all(g[t], group);
    let out = place_group(g, group);
    assert(out[t] == fill_row(g[t], group));
    assert forall|k: int| 0 <= k < group.len() implies sits_at(out, t, #[trigger] group[k]) by {
        assert(out[t].contains(Some(group[k])));
        let s = choose|s: int| 0 <= s < out[t].len() && out[t][s] == Some(group[k]);
        assert(holds(out, t, s, group[k]));
    }
    assert forall|k: int, j: int| 0 <= k < group.len() && 0 <= j < group.len() implies co_seated(out, #[trigger] group[k], #[trigger] group[j]) by {
        let s1 = choose|s: int| #[trigger] holds(out, t, s, group[k]);
        let s2 = choose|s: int| #[trigger] holds(out, t, s, group[j]);
        assert(holds(out, t, s1, group[k]) && holds(out, t, s2, group[j]));
    }
}

/// Seats a Must group: all of it at the first table with room for everybody, or
/// else table by table, each guest at the current table's seat with the most group
/// members next to it.
fn place_component(component: &Vec<GuestId>, tables: &mut Vec<Table>, seated: &mut HashSet<GuestId>)
    requires
        sized(old(tables)@),
        old(seated)@ == seated_set(seat_grid(old(tables)@)),
    ensures
        same_tables(old(tables)@, final(tables)@),
        sized(final(tables)@),
        seat_grid(final(tables)@) == place_group(seat_grid(old(tables)@), component@),
        final(seated)@ == seated_set(seat_grid(final(tables)@)),
        final(seated)@ == old(seated)@.union(final(seated)@.intersect(component@.to_set())),
        old(seated)@.subset_of(final(seated)@),
        component@.to_set().subset_of(final(seated)@) || no_room(seat_grid(final(tables)@)),
        no_room(seat_grid(old(tables)@)) ==> seat_grid(final(tables)@) == seat_grid(old(tables)@),
        one_seat_each(seat_grid(old(tables)@)) && component@.no_duplicates() && component@.to_set().disjoint(
            old(seated)@,
        ) ==> one_seat_each(seat_grid(final(tables)@)),
{
    let ghost t0 = tables@;
    let ghost g0 = seat_grid(tables@);
    let ghost comp = component@;
    let ghost s0 = seated@;
    let ghost h = one_seat_each(g0) && comp.no_duplicates() && comp.to_set().disjoint(s0);
    if component.len() == 0 {
        proof {
            assert(seated@ =~= s0.union(seated@.intersect(comp.to_set())));
        }
        return;
    }
    let mut ti: usize = 0;
    while ti < tables.len()
        invariant
            ti <= tables.len(),
            tables@ == t0,
            t0 == old(tables)@,
            s0 == old(seated)@,
            g0 == seat_grid(t0),
            sized(t0),
            seated@ == seated_set(g0),
            s0 == seated@,
            comp == component@,
            comp.len() > 0,
            h == (one_seat_each(g0) && comp.no_duplicates() && comp.to_set().disjoint(s0)),
            forall|t2: int| 0 <= t2 < ti ==> room(#[trigger] g0[t2]) < comp.len(),
        decreases tables.len() - ti,
    {
        let _n = tables[ti].seats.len();
        proof {
            lemma_room(t0, ti as int);
        }
        if tables[ti].free_seats() >= component.len() {
            proof {
                assert(is_first_roomy(g0, comp.len(), ti as int));
                lemma_first_roomy_unique(g0, comp.len(), ti as int);
                assert(comp.skip(0) =~= comp);
                assert(same_tables(t0, tables@));
                lemma_room_seats(g0, ti as int);
                assert(seated@ =~= s0.union(comp.take(0).to_set()));
                if h {
                    assert forall|j: int| 0 <= j < comp.len() implies !seated@.contains(#[trigger] comp[j]) by {
                        assert(comp.to_set().contains(comp[j]));
                    }
                }
            }
            let mut k: usize = 0;
            while k < component.len()
                invariant
                    k <= component.len(),
                    ti < tables@.len(),
                    t0 == old(tables)@,
                    s0 == old(seated)@,
                s0 == old(seated)@,
            s0 == old(seated)@,
                    g0 == seat_grid(t0),
                    comp == component@,
                    !no_room(g0),
                    h == (one_seat_each(g0) && comp.no_duplicates() && comp.to_set().disjoint(s0)),
                    same_tables(t0, tables@),
                    sized(tables@),
                    seat_grid(tables@) == g0.update(ti as int, seat_grid(tables@)[ti as int]),
                    fill_row(seat_grid(tables@)[ti as int], comp.skip(k as int)) == fill_row(g0[ti as int], comp),
                    seated@ == seated_set(seat_grid(tables@)),
                    seated@ == s0.union(comp.take(k as int).to_set()),
                    room(seat_grid(tables@)[ti as int]) + k >= comp.len(),
                    h ==> one_seat_each(seat_grid(tables@)) && forall|j: int|
                        k <= j < comp.len() ==> !seated@.contains(#[trigger] comp[j]),
                decreases component.len() - k,
            {
                let guest = component[k];
                let ghost row = seat_grid(tables@)[ti as int];
                let ghost gk = seat_grid(tables@);
                let ghost tk = tables@;
                let free = tables[ti].free_seat_indices();
                let _m = tables[ti].seats.len();
                proof {
                    lemma_free_positions(row);
                    lemma_fill_step(row, comp, k as int);
                    lemma_room_seats(gk, ti as int);
                    lemma_take_last(comp, k as int);
                }
                if free.len() > 0 {
                    let seat = free[0];
                    proof {
                        if h {
                            assert(!is_seated(gk, guest)) by {
                                assert(!seated@.contains(comp[k as int]));
                            }
                            lemma_seat_one(gk, ti as int, seat as int, guest);
                        }
                        lemma_room_after(row, seat as int, guest);
                    }
                    put(tables, ti, seat, Some(guest));
                    seated.insert(guest);
                    proof {
                        lemma_seat_new(gk, ti as int, seat as int, guest);
                        lemma_same_tables(t0, tk, tables@);
                        lemma_sized_kept(tk, tables@);
                        assert(seat_grid(tables@) == gk.update(ti as int, row.update(seat as int, Some(guest))));
                        assert(seat_grid(tables@)[ti as int] == row.update(seat as int, Some(guest)));
                        assert(seat_grid(tables@) =~= g0.update(ti as int, seat_grid(tables@)[ti as int]));
                        assert(seated@ =~= s0.union(comp.take(k as int + 1).to_set()));
                        if h {
                            assert forall|j: int| k + 1 <= j < comp.len() implies !seated@.contains(#[trigger] comp[j]) by {
                                assert(comp[j] != comp[k as int]);
                            }
                        }
                    }
                }
                k += 1;
            }
            proof {
                assert(comp.skip(comp.len() as int) =~= Seq::<GuestId>::empty());
                assert(comp.take(comp.len() as int) =~= comp);
                assert(seat_grid(tables@) == place_group(g0, comp));
                assert(same_tables(old(tables)@, tables@));
                assert(seated@ =~= s0.union(seated@.intersect(comp.to_set())));
            }
            return;
        }
        ti += 1;
    }
    proof {
        if exists|t: int| is_first_roomy(g0, comp.len(), t) {
            let t = choose|t: int| is_first_roomy(g0, comp.len(), t);
            assert(room(g0[t]) < comp.len());
        }
        assert(place_group(g0, comp) == spread(g0, 0, comp, comp));
    }
    let mut remaining = copy_ids(component);
    let ghost mut m: int = 0;
    proof {
        assert(comp.skip(0) =~= comp);
        assert(seated@ =~= s0.union(comp.take(0).to_set()));
        if h {
            assert forall|j: int| 0 <= j < comp.len() implies !seated@.contains(#[trigger] comp[j]) by {
                assert(comp.to_set().contains(comp[j]));
            }
        }
    }
    let mut ti: usize = 0;
    while ti < tables.len() && remaining.len() > 0
        invariant
            ti <= tables.len(),
            comp == component@,
            t0 == old(tables)@,
            s0 == old(seated)@,
            g0 == seat_grid(t0),
            same_tables(t0, tables@),
            sized(tables@),
            h == (one_seat_each(g0) && comp.no_duplicates() && comp.to_set().disjoint(s0)),
            spread(seat_grid(tables@), ti as int, remaining@, comp) == spread(g0, 0, comp, comp),
            seated@ == seated_set(seat_grid(tables@)),
            0 <= m <= comp.len(),
            remaining@ == comp.skip(m),
            seated@ == s0.union(comp.take(m).to_set()),
            remaining@.len() > 0 ==> forall|t2: int| 0 <= t2 < ti ==> room(#[trigger] seat_grid(tables@)[t2]) == 0,
            no_room(g0) ==> seat_grid(tables@) == g0,
            h ==> one_seat_each(seat_grid(tables@)) && forall|j: int| m <= j < comp.len() ==> !seated@.contains(#[trigger] comp[j]),
        decreases tables.len() - ti,
    {
        let _n = tables[ti].seats.len();
        proof {
            lemma_room(tables@, ti as int);
        }
        while remaining.len() > 0 && !tables[ti].is_full()
            invariant
                ti < tables.len(),
                comp == component@,
                t0 == old(tables)@,
                s0 == old(seated)@,
            s0 == old(seated)@,
                g0 == seat_grid(t0),
                same_tables(t0, tables@),
                sized(tables@),
                h == (one_seat_each(g0) && comp.no_duplicates() && comp.to_set().disjoint(s0)),
                spread(seat_grid(tables@), ti as int, remaining@, comp) == spread(g0, 0, comp, comp),
                seated@ == seated_set(seat_grid(tables@)),
                occupied_count(tables@[ti as int].seats@) <= tables@[ti as int].capacity,
                0 <= m <= comp.len(),
                remaining@ == comp.skip(m),
                seated@ == s0.union(comp.take(m).to_set()),
                remaining@.len() > 0 ==> forall|t2: int| 0 <= t2 < ti ==> room(#[trigger] seat_grid(tables@)[t2]) == 0,
                no_room(g0) ==> seat_grid(tables@) == g0,
                h ==> one_seat_each(seat_grid(tables@)) && forall|j: int| m <= j < comp.len() ==> !seated@.contains(#[trigger] comp[j]),
            decreases remaining.len(),
        {
            let ghost gk = seat_grid(tables@);
            let ghost tk = tables@;
            let ghost rem = remaining@;
            let _m = tables[ti].seats.len();
            proof {
                lemma_room(tables@, ti as int);
                lemma_spread_step(gk, ti as int, rem, comp);
                lemma_room_seats(gk, ti as int);
                lemma_skip_step(comp, m);
                lemma_take_last(comp, m);
            }
            let guest = remaining.remove(0);
            let seat = best_seat_for_group(ti, tables, component);
            proof {
                assert(is_free(gk, ti as int, seat as int));
                if h {
                    assert(!is_seated(gk, guest)) by {
                        assert(!seated@.contains(comp[m]));
                    }
                    lemma_seat_one(gk, ti as int, seat as int, guest);
                }
            }
            put(tables, ti, seat, Some(guest));
            seated.insert(guest);
            proof {
                assert(remaining@ =~= rem.drop_first());
                lemma_seat_new(gk, ti as int, seat as int, guest);
                lemma_same_tables(t0, tk, tables@);
                lemma_sized_kept(tk, tables@);
                let _m2 = tables@[ti as int].seats@.len();
                assert(tables@[ti as int].seats@.len() == tk[ti as int].seats@.len());
                lemma_room(tables@, ti as int);
                assert forall|t2: int| 0 <= t2 < ti implies #[trigger] seat_grid(tables@)[t2] == gk[t2] by {}
                assert(seated@ =~= s0.union(comp.take(m + 1).to_set()));
                if h {
                    assert forall|j: int| m + 1 <= j < comp.len() implies !seated@.contains(#[trigger] comp[j]) by {
                        assert(comp[j] != comp[m]);
                    }
                }
                m = m + 1;
            }
        }
        proof {
            let gk = seat_grid(tables@);
            lemma_room(tables@, ti as int);
            lemma_spread_next(gk, ti as int, remaining@, comp);
        }
        ti += 1;
    }
    proof {
        lemma_sized_kept(t0, tables@);
        lemma_spread_done(seat_grid(tables@), ti as int, remaining@, comp);
        let gf = seat_grid(tables@);
        if remaining@.len() > 0 {
            assert forall|t: int, s: int| !#[trigger] is_free(gf, t, s) by {
                if 0 <= t < gf.len() {
                    let _l = tables@[t].seats@.len();
                    assert(gf[t] == tables@[t].seats@);
                    lemma_room_seats(gf, t);
                }
            }
        } else {
            assert(m == comp.len());
            assert(comp.take(m) =~= comp);
        }
        assert(seated@ =~= s0.union(seated@.intersect(comp.to_set())));
    }
}

proof fn lemma_refuge_unique(cs: Seq<Constraint>, g: Seq<Seq<Seat>>, from: int, b: GuestId, i: int)
    requires
        is_first_refuge(cs, g, from, b, i),
    ensures
        refuge(cs, g, from, b) == Some(i),
{
    let p = choose|p: int| is_first_refuge(cs, g, from, b, p);
    if p < i {
        assert(!can_take(cs, g, from, b, p));
    } else if i < p {
        assert(!can_take(cs, g, from, b, i));
    }
}

/// Moving a seated guest to an empty seat at another table keeps the seated guests.
proof fn lemma_relocate_seated(g: Seq<Seq<Seat>>, from: int, s: int, to: int, b: GuestId)
    requires
        holds(g, from, s, b),
        0 <= to < g.len(),
        to != from,
        room(g[to]) > 0,
        g[to].len() <= usize::MAX,
    ensures
        seated_set(relocate(g, from, s, to, b)) == seated_set(g),
        free_positions(seat_at(g, from, s, None)[to]).len() > 0,
{
    let g1 = seat_at(g, from, s, None);
    assert(g1[to] == g[to]);
    lemma_free_positions(g[to]);
    let f0 = free_positions(g1[to])[0] as int;
    assert(is_free(g1, to, f0));
    lemma_seat_new(g1, to, f0, b);
    assert forall|y: GuestId| y != b implies (is_seated(g1, y) <==> is_seated(g, y)) by {
        if is_seated(g1, y) {
            let (t2, s2) = choose|t2: int, s2: int| #[trigger] holds(g1, t2, s2, y);
            assert(holds(g, t2, s2, y));
        }
        if is_seated(g, y) {
            let (t2, s2) = choose|t2: int, s2: int| #[trigger] holds(g, t2, s2, y);
            assert(holds(g1, t2, s2, y));
        }
    }
    assert(is_seated(g, b));
    assert(seated_set(relocate(g, from, s, to, b)) =~= seated_set(g));
}

/// The first table, other than `from`, with an empty seat and nobody who refuses to
/// sit with `b`.
fn find_refuge(constraints: &ConstraintGraph, tables: &Vec<Table>, from: usize, b: GuestId) -> (r: Option<usize>)
    requires
        sized(tables@),
    ensures
        match r {
            Some(t) => refuge(constraints.links(), seat_grid(tables@), from as int, b) == Some(t as int),
            None => refuge(constraints.links(), seat_grid(tables@), from as int, b) is None,
        },
{
    proof {
        use_type_invariant(constraints);
    }
    let ghost cs = constraints.links();
    let ghost g = seat_grid(tables@);
    let mut i: usize = 0;
    while i < tables.len()
        invariant
            i <= tables.len(),
            constraints.wf(),
            cs == constraints.links(),
            g == seat_grid(tables@),
            sized(tables@),
            forall|i2: int| 0 <= i2 < i ==> !#[trigger] can_take(cs, g, from as int, b, i2),
        decreases tables.len() - i,
    {
        let _n = tables[i].seats.len();
        proof {
            lemma_room(tables@, i as int);
        }
        if i != from && tables[i].free_seats() > 0 {
            let ghost row = g[i as int];
            let mut clash = false;
            let mut s: usize = 0;
            while s < tables[i].seats.len()
                invariant
                    i < tables.len(),
                    s <= tables[i as int].seats.len(),
                    constraints.wf(),
                    cs == constraints.links(),
                    g == seat_grid(tables@),
                    row == g[i as int],
                    clash == exists|s2: int| 0 <= s2 < s && refuses(cs, b, #[trigger] row[s2]),
                decreases tables[i as int].seats.len() - s,
            {
                match tables[i].seats[s] {
                    Some(tg) => {
                        match constraints.get(b, tg) {
                            Some(LinkType::Wont) => {
                                clash = true;
                            },
                            _ => {},
                        }
                    },
                    None => {},
                }
                proof {
                    assert(row[s as int] == tables@[i as int].seats@[s as int]);
                }
                s += 1;
            }
            if !clash {
                proof {
                    lemma_refuge_unique(cs, g, from as int, b, i as int);
                }
                return Some(i);
            }
        }
        i += 1;
    }
    proof {
        if exists|p: int| is_first_refuge(cs, g, from as int, b, p) {
            let p = choose|p: int| is_first_refuge(cs, g, from as int, b, p);
            assert(!can_take(cs, g, from as int, b, p));
        }
    }
    None
}

proof fn lemma_separate_all_step(cs: Seq<Constraint>, g: Seq<Seq<Seat>>, i: int)
    requires
        0 <= i < cs.len(),
    ensures
        separate_all(cs, cs.skip(i), g) == match separate(cs, g, cs[i]) {
            Err(e) => Err(e),
            Ok(g2) => separate_all(cs, cs.skip(i + 1), g2),
        },
        separation_reached(cs, cs.skip(i), g) == match separate(cs, g, cs[i]) {
            Err(_) => g,
            Ok(g2) => separation_reached(cs, cs.skip(i + 1), g2),
        },
{
    assert(cs.skip(i)[0] == cs[i]);
    assert(cs.skip(i).drop_first() =~= cs.skip(i + 1));
}

/// Emptying the seat of somebody seated once unseats them and moves nobody else.
proof fn lemma_clear_one(g: Seq<Seq<Seat>>, t: int, s: int, b: GuestId)
    requires
        holds(g, t, s, b),
        one_seat_each(g),
    ensures
        one_seat_each(seat_at(g, t, s, None)),
        !is_seated(seat_at(g, t, s, None), b),
        forall|t2: int, s2: int, y: GuestId|
            #[trigger] holds(seat_at(g, t, s, None), t2, s2, y) <==> (holds(g, t2, s2, y) && !(t2 == t && s2 == s)),
{
    let n = seat_at(g, t, s, None);
    assert forall|t2: int, s2: int, y: GuestId|
        #[trigger] holds(n, t2, s2, y) <==> (holds(g, t2, s2, y) && !(t2 == t && s2 == s)) by {}
    assert forall|t1: int, s1: int, t2: int, s2: int, y: GuestId|
        #[trigger] holds(n, t1, s1, y) && #[trigger] holds(n, t2, s2, y) implies t1 == t2 && s1 == s2 by {
        assert(holds(g, t1, s1, y) && holds(g, t2, s2, y));
    }
    if is_seated(n, b) {
        let (t2, s2) = choose|t2: int, s2: int| #[trigger] holds(n, t2, s2, b);
        assert(holds(g, t2, s2, b));
    }
}

/// Moving `b` to a table where nobody refuses them keeps everybody on one seat and
/// the Wont pairs apart.
proof fn lemma_relocate_laws(cs: Seq<Constraint>, g: Seq<Seq<Seat>>, from: int, s: int, to: int, b: GuestId, upto: int)
    requires
        well_linked(cs),
        0 <= upto < cs.len(),
        holds(g, from, s, b),
        one_seat_each(g),
        can_take(cs, g, from, b, to),
        g[to].len() <= usize::MAX,
        cs[upto].b == b,
        co_seated(g, cs[upto].a, b),
        forall|j: int|
            0 <= j < upto && (#[trigger] cs[j]).kind == LinkType::Wont ==> !co_seated(g, cs[j].a, cs[j].b),
    ensures
        one_seat_each(relocate(g, from, s, to, b)),
        forall|j: int|
            0 <= j <= upto && (#[trigger] cs[j]).kind == LinkType::Wont ==> !co_seated(
                relocate(g, from, s, to, b),
                cs[j].a,
                cs[j].b,
            ),
{
    let g1 = seat_at(g, from, s, None);
    lemma_clear_one(g, from, s, b);
    assert(g1[to] == g[to]);
    lemma_free_positions(g[to]);
    let f0 = free_positions(g1[to])[0] as int;
    assert(is_free(g1, to, f0));
    let n = seat_at(g1, to, f0, Some(b));
    assert(n == relocate(g, from, s, to, b));
    lemma_seat_one(g1, to, f0, b);
    lemma_seat_others(g1, to, f0, b);
    // where b's partner sits
    let a = cs[upto].a;
    assert(a != b);
    let (ta, sa, sb) = choose|ta: int, sa: int, sb: int| #[trigger] holds(g, ta, sa, a) && #[trigger] holds(g, ta, sb, b);
    assert(ta == from);
    assert forall|j: int|
        0 <= j <= upto && (#[trigger] cs[j]).kind == LinkType::Wont implies !co_seated(n, cs[j].a, cs[j].b) by {
        let x = cs[j].a;
        let y = cs[j].b;
        assert(x != y);
        if co_seated(n, x, y) {
            let (t1, s1, s2) = choose|t1: int, s1: int, s2: int| #[trigger] holds(n, t1, s1, x) && #[trigger] holds(n, t1, s2, y);
            if x != b && y != b {
                assert(holds(g1, t1, s1, x) && holds(g1, t1, s2, y));
                assert(holds(g, t1, s1, x) && holds(g, t1, s2, y));
                if j == upto {
                    assert(false);
                }
                assert(co_seated(g, x, y));
            } else {
                // b sits only at `to` now, so the partner sits there too
                let other = if x == b { y } else { x };
                let so = if x == b { s2 } else { s1 };
                let sbb = if x == b { s1 } else { s2 };
                assert(holds(n, t1, sbb, b));
                assert(holds(n, to, f0, b));
                assert(t1 == to);
                assert(other != b);
                assert(holds(g1, to, so, other));
                assert(holds(g, to, so, other));
                lemma_pair_kind_at(cs, b, other, j);
                assert(refuses(cs, b, g[to][so]));
                assert(wont_at(cs, g[to], b));
            }
        }
    }
}

/// Handles the Wont constraints in order: when both guests sit at one table, the
/// second moves to the first table that can take them; when none can, the pair is
/// reported.
fn fix_wont_violations(constraints: &ConstraintGraph, tables: &mut Vec<Table>) -> (r: Result<(), SolveError>)
    requires
        sized(old(tables)@),
    ensures
        same_tables(old(tables)@, final(tables)@),
        sized(final(tables)@),
        seated_set(seat_grid(final(tables)@)) == seated_set(seat_grid(old(tables)@)),
        match r {
            Ok(()) => separate_all(constraints.links(), constraints.links(), seat_grid(old(tables)@)) == Ok::<Seq<Seq<Seat>>, (GuestId, GuestId)>(seat_grid(final(tables)@)),
            Err(e) => e matches SolveError::UnsatisfiableWont { a, b } && separate_all(
                constraints.links(),
                constraints.links(),
                seat_grid(old(tables)@),
            ) == Err::<Seq<Seq<Seat>>, (GuestId, GuestId)>((a, b)),
        },
        seat_grid(final(tables)@) == separation_reached(constraints.links(), constraints.links(), seat_grid(old(tables)@)),
        one_seat_each(seat_grid(old(tables)@)) ==> one_seat_each(seat_grid(final(tables)@)),
        no_room(seat_grid(old(tables)@)) ==> seat_grid(final(tables)@) == seat_grid(old(tables)@),
        r is Ok && one_seat_each(seat_grid(old(tables)@)) ==> wont_kept(constraints.links(), seat_grid(final(tables)@)),
{
    proof {
        use_type_invariant(constraints);
    }
    let ghost cs = constraints.links();
    proof {
        constraints.lemma_wf();
    }
    let ghost t0 = tables@;
    let ghost g0 = seat_grid(tables@);
    let all = constraints.all_constraints();
    proof {
        assert(cs.skip(0) =~= cs);
        assert(same_tables(t0, tables@));
    }
    let mut i: usize = 0;
    while i < all.len()
        invariant
            i <= all.len(),
            constraints.wf(),
            cs == constraints.links(),
            all@ == cs,
            t0 == old(tables)@,
            g0 == seat_grid(t0),
            same_tables(t0, tables@),
            sized(tables@),
            seated_set(seat_grid(tables@)) == seated_set(g0),
            separate_all(cs, cs.skip(i as int), seat_grid(tables@)) == separate_all(cs, cs, g0),
            separation_reached(cs, cs.skip(i as int), seat_grid(tables@)) == separation_reached(cs, cs, g0),
            well_linked(cs),
            one_seat_each(g0) ==> one_seat_each(seat_grid(tables@)),
            no_room(g0) ==> seat_grid(tables@) == g0,
            one_seat_each(g0) ==> forall|j: int|
                0 <= j < i && (#[trigger] cs[j]).kind == LinkType::Wont ==> !co_seated(seat_grid(tables@), cs[j].a, cs[j].b),
        decreases all.len() - i,
    {
        let ghost gi = seat_grid(tables@);
        let ghost ti0 = tables@;
        proof {
            lemma_separate_all_step(cs, gi, i as int);
        }
        let a = all[i].a;
        let b = all[i].b;
        let kind = all[i].kind;
        if kind == LinkType::Wont {
            let a_pos = find_guest(a, tables);
            let b_pos = find_guest(b, tables);
            match (a_pos, b_pos) {
                (Some((ti_a, _)), Some((ti_b, si_b))) => {
                    if ti_a == ti_b {
                        let target = find_refuge(constraints, tables, ti_a, b);
                        match target {
                            Some(t) => {
                                let _n = tables[t].seats.len();
                                proof {
                                    assert(holds(gi, ti_b as int, si_b as int, b));
                                    lemma_relocate_seated(gi, ti_a as int, si_b as int, t as int, b);
                                    let p = choose|p: int| is_first_refuge(cs, gi, ti_a as int, b, p);
                                    assert(can_take(cs, gi, ti_a as int, b, t as int));
                                    if no_room(g0) {
                                        lemma_room_seats(gi, t as int);
                                        assert(is_free(gi, t as int, free_positions(gi[t as int])[0] as int));
                                    }
                                    if one_seat_each(g0) {
                                        assert(all@[i as int] == cs[i as int]);
                                        assert(co_seated(gi, a, b)) by {
                                            let sa = choose|sa: int| holds(gi, ti_a as int, sa, a);
                                            assert(holds(gi, ti_a as int, sa, a) && holds(gi, ti_a as int, si_b as int, b));
                                        }
                                        lemma_relocate_laws(cs, gi, ti_a as int, si_b as int, t as int, b, i as int);
                                    }
                                }
                                put(tables, ti_a, si_b, None);
                                let ghost g1 = seat_grid(tables@);
                                let ghost t1 = tables@;
                                let free = tables[t].free_seat_indices();
                                let _n2 = tables[t].seats.len();
                                proof {
                                    lemma_free_positions(g1[t as int]);
                                }
                                if free.len() > 0 {
                                    put(tables, t, free[0], Some(b));
                                    proof {
                                        lemma_same_tables(t1, tables@, tables@);
                                    }
                                }
                                proof {
                                    lemma_same_tables(ti0, t1, tables@);
                                    lemma_same_tables(t0, ti0, tables@);
                                    lemma_sized_kept(ti0, tables@);
                                    assert(seat_grid(tables@) == relocate(gi, ti_a as int, si_b as int, t as int, b));
                                }
                            },
                            None => {
                                return Err(SolveError::UnsatisfiableWont { a, b });
                            },
                        }
                    }
                },
                _ => {},
            }
        }
        proof {
            if one_seat_each(g0) && kind == LinkType::Wont {
                let gn = seat_grid(tables@);
                if gn == gi {
                    assert(!co_seated(gn, a, b)) by {
                        if co_seated(gn, a, b) {
                            let (t1, s1, s2) = choose|t1: int, s1: int, s2: int| #[trigger] holds(gn, t1, s1, a) && #[trigger] holds(gn, t1, s2, b);
                            assert(is_seated(gi, a) && is_seated(gi, b));
                        }
                    }
                }
            }
        }
        i += 1;
    }
    proof {
        assert(cs.skip(all.len() as int) =~= Seq::<Constraint>::empty());
    }
    Ok(())
}

/// `not_seated` keeps exactly the unseated guests, without adding repeats.
proof fn lemma_not_seated(g: Seq<Seq<Seat>>, order: Seq<GuestId>)
    ensures
        forall|x: GuestId| #[trigger] not_seated(g, order).contains(x) <==> order.contains(x) && !is_seated(g, x),
        order.no_duplicates() ==> not_seated(g, order).no_duplicates(),
    decreases order.len(),
{
    if order.len() > 0 {
        let d = order.drop_last();
        lemma_not_seated(g, d);
        let ns = not_seated(g, d);
        lemma_drop_last_contains(order);
        lemma_push_contains(ns, order.last());
        if order.no_duplicates() {
            assert(d.no_duplicates()) by {
                assert forall|i: int, j: int| 0 <= i < d.len() && 0 <= j < d.len() && i != j implies d[i] != d[j] by {
                    assert(d[i] == order[i] && d[j] == order[j]);
                }
            }
            if !is_seated(g, order.last()) {
                assert(!d.contains(order.last())) by {
                    if d.contains(order.last()) {
                        let i = choose|i: int| 0 <= i < d.len() && d[i] == order.last();
                        assert(order[i] == order[order.len() - 1]);
                    }
                }
                let ns2 = ns.push(order.last());
                assert forall|i: int, j: int| 0 <= i < ns2.len() && 0 <= j < ns2.len() && i != j implies ns2[i] != ns2[j] by {
                    if i == ns.len() {
                        assert(ns.contains(ns2[j]));
                    } else if j == ns.len() {
                        assert(ns.contains(ns2[i]));
                    }
                }
            }
        }
    }
}

/// The guests of `order` who have no seat yet, in that order.
fn unseated_in_order(order: &[GuestId], seated: &HashSet<GuestId>, Ghost(g): Ghost<Seq<Seq<Seat>>>) -> (r: Vec<GuestId>)
    requires
        seated@ == seated_set(g),
    ensures
        r@ == not_seated(g, order@),
{
    let mut r: Vec<GuestId> = Vec::new();
    let mut i: usize = 0;
    while i < order.len()
        invariant
            i <= order.len(),
            seated@ == seated_set(g),
            r@ == not_seated(g, order@.take(i as int)),
        decreases order.len() - i,
    {
        proof {
            lemma_take_last(order@, i as int);
        }
        if !seated.contains(&order[i]) {
            r.push(order[i]);
        }
        i += 1;
    }
    proof {
        assert(order@.take(order.len() as int) =~= order@);
    }
    r
}

proof fn lemma_total_prefix(caps: Seq<usize>, n: int)
    requires
        0 <= n <= caps.len(),
    ensures
        0 <= total(caps.take(n)) <= total(caps),
    decreases caps.len(),
{
    if n < caps.len() {
        assert(caps.drop_last().take(n) =~= caps.take(n));
        lemma_total_prefix(caps.drop_last(), n);
    } else {
        assert(caps.take(n) =~= caps);
        lemma_total_nonneg(caps);
    }
}

proof fn lemma_total_nonneg(caps: Seq<usize>)
    ensures
        total(caps) >= 0,
    decreases caps.len(),
{
    if caps.len() > 0 {
        lemma_total_nonneg(caps.drop_last());
    }
}

proof fn lemma_first_oversized_unique(groups: Seq<Seq<GuestId>>, max: usize, i: int)
    requires
        is_first_oversized(groups, max, i),
    ensures
        first_oversized(groups, max) == Some(i),
{
    let p = choose|p: int| is_first_oversized(groups, max, p);
    if p < i {
        assert(groups[p].len() <= max);
    } else if i < p {
        assert(groups[i].len() <= max);
    }
}

proof fn lemma_first_split_unique(cs: Seq<Constraint>, g: Seq<Seq<Seat>>, i: int)
    requires
        is_first_split(cs, g, i),
    ensures
        first_split(cs, g) == Some(i),
{
    let p = choose|p: int| is_first_split(cs, g, p);
    if p < i {
        assert(!split_at(g, cs[p]));
    } else if i < p {
        assert(!split_at(g, cs[i]));
    }
}

/// A guest who sits somewhere has a first seat.
proof fn lemma_first_seat_exists(g: Seq<Seq<Seat>>, x: GuestId, t: int, s: int)
    requires
        holds(g, t, s, x),
    ensures
        seat_of(g, x) is Some,
    decreases t, s,
{
    if is_first_seat_of(g, x, t, s) {
        lemma_seat_of(g, x, t, s);
    } else {
        let (t1, s1) = choose|t1: int, s1: int| #[trigger] holds(g, t1, s1, x) && earlier(t1, s1, t, s);
        lemma_first_seat_exists(g, x, t1, s1);
    }
}

/// When no Must constraint is split, the guests of each sit at one table.
proof fn lemma_no_split_kept(cs: Seq<Constraint>, g: Seq<Seq<Seat>>)
    requires
        first_split(cs, g) is None,
    ensures
        must_kept(cs, g),
{
    assert forall|i: int|
        0 <= i < cs.len() && (#[trigger] cs[i]).kind == LinkType::Must && is_seated(g, cs[i].a) && is_seated(
            g,
            cs[i].b,
        ) implies co_seated(g, cs[i].a, cs[i].b) by {
        let (ta, sa) = choose|t: int, s: int| #[trigger] holds(g, t, s, cs[i].a);
        let (tb, sb) = choose|t: int, s: int| #[trigger] holds(g, t, s, cs[i].b);
        lemma_first_seat_exists(g, cs[i].a, ta, sa);
        lemma_first_seat_exists(g, cs[i].b, tb, sb);
        let pa = choose|p: (int, int)| is_first_seat_of(g, cs[i].a, p.0, p.1);
        let pb = choose|p: (int, int)| is_first_seat_of(g, cs[i].b, p.0, p.1);
        assert(holds(g, pa.0, pa.1, cs[i].a));
        assert(holds(g, pb.0, pb.1, cs[i].b));
        if !split_at(g, cs[i]) {
            assert(pa.0 == pb.0);
        } else {
            if exists|j: int| 0 <= j < i && split_at(g, #[trigger] cs[j]) {
                let j0 = choose|j: int| 0 <= j < i && split_at(g, #[trigger] cs[j]);
                lemma_first_split_below(cs, g, j0);
            } else {
                assert(is_first_split(cs, g, i));
            }
        }
    }
}

/// Some constraint is split: then there is a first one.
proof fn lemma_first_split_below(cs: Seq<Constraint>, g: Seq<Seq<Seat>>, j: int)
    requires
        0 <= j < cs.len(),
        split_at(g, cs[j]),
    ensures
        first_split(cs, g) is Some,
    decreases j,
{
    if exists|k: int| 0 <= k < j && split_at(g, #[trigger] cs[k]) {
        let k = choose|k: int| 0 <= k < j && split_at(g, #[trigger] cs[k]);
        lemma_first_split_below(cs, g, k);
    } else {
        assert(is_first_split(cs, g, j));
    }
}

/// The first Must constraint whose two guests sit at different tables, if any.
fn find_must_split(constraints: &ConstraintGraph, tables: &Vec<Table>) -> (r: Option<(GuestId, GuestId)>)
    ensures
        match r {
            Some((a, b)) => exists|i: int|
                is_first_split(constraints.links(), seat_grid(tables@), i) && #[trigger] constraints.links()[i].a == a
                    && constraints.links()[i].b == b,
            None => first_split(constraints.links(), seat_grid(tables@)) is None,
        },
{
    let ghost g = seat_grid(tables@);
    let cs = constraints.all_constraints();
    let mut i: usize = 0;
    while i < cs.len()
        invariant
            i <= cs.len(),
            cs@ == constraints.links(),
            g == seat_grid(tables@),
            forall|j: int| 0 <= j < i ==> !split_at(g, #[trigger] cs@[j]),
        decreases cs.len() - i,
    {
        let c = &cs[i];
        if c.kind == LinkType::Must {
            match (find_guest(c.a, tables), find_guest(c.b, tables)) {
                (Some((ta, _)), Some((tb, _))) => {
                    if ta != tb {
                        proof {
                            assert(is_first_split(cs@, g, i as int));
                        }
                        return Some((c.a, c.b));
                    }
                },
                _ => {},
            }
        }
        i += 1;
    }
    proof {
        if first_split(cs@, g) is Some {
            let p = choose|p: int| is_first_split(cs@, g, p);
            assert(!split_at(g, cs@[p]));
        }
    }
    None
}

/// Seats the guests with the Must groups taken in the order `components` and the
/// other guests in the order `guest_order`; `guest_ids` is the guest list as given.
pub fn solve_in_order(
    guest_ids: &[GuestId],
    guest_order: &[GuestId],
    constraints: &ConstraintGraph,
    table_capacities: &[usize],
    components: &Vec<Vec<GuestId>>,
) -> (r: Result<SeatingArrangement, SolveError>)
    requires
        total(table_capacities@) <= usize::MAX,
    ensures
        solve_outcome(guest_ids@, guest_order@, constraints.links(), table_capacities@, components.deep_view(), r),
        r matches Ok(arr) ==> seating_laws(
            seat_grid(arr.tables@),
            arr.unseated@,
            guest_order@,
            constraints.links(),
            table_capacities@,
            components.deep_view(),
        ),
{
    proof {
        use_type_invariant(constraints);
    }
    let ghost cs = constraints.links();
    let ghost caps = table_capacities@;
    let ghost groups = components.deep_view();
    proof {
        assert forall|c: int| 0 <= c < components@.len() implies #[trigger] groups[c] == components@[c]@ by {
            assert(groups[c] =~= components@[c]@);
        }
    }
    if table_capacities.len() == 0 {
        return Err(SolveError::NoTables);
    }
    let mut total_capacity: usize = 0;
    let mut i: usize = 0;
    while i < table_capacities.len()
        invariant
            i <= table_capacities.len(),
            caps == table_capacities@,
            total(caps) <= usize::MAX,
            total_capacity == total(caps.take(i as int)),
        decreases table_capacities.len() - i,
    {
        proof {
            lemma_take_last(caps, i as int);
            lemma_total_prefix(caps, i as int + 1);
        }
        total_capacity = total_capacity + table_capacities[i];
        i += 1;
    }
    proof {
        assert(caps.take(caps.len() as int) =~= caps);
    }
    if total_capacity < guest_ids.len() {
        return Err(SolveError::InsufficientCapacity { total: total_capacity, needed: guest_ids.len() });
    }
    let mut max_capacity: usize = table_capacities[0];
    let mut i: usize = 1;
    proof {
        lemma_take_last(caps, 0);
        assert(caps.take(0).len() == 0);
        assert(largest(caps.take(0)) == 0);
        assert(largest(caps.take(1)) == caps[0]);
    }
    while i < table_capacities.len()
        invariant
            1 <= i <= table_capacities.len(),
            caps == table_capacities@,
            max_capacity == largest(caps.take(i as int)),
        decreases table_capacities.len() - i,
    {
        proof {
            lemma_take_last(caps, i as int);
        }
        if table_capacities[i] > max_capacity {
            max_capacity = table_capacities[i];
        }
        i += 1;
    }
    proof {
        assert(caps.take(caps.len() as int) =~= caps);
    }
    let mut c: usize = 0;
    while c < components.len()
        invariant
            c <= components.len(),
            groups == components.deep_view(),
            groups.len() == components@.len(),
            caps == table_capacities@,
            caps.len() > 0,
            total(caps) >= guest_ids@.len(),
            max_capacity == largest(caps),
            forall|k: int| 0 <= k < components@.len() ==> #[trigger] groups[k] == components@[k]@,
            forall|k: int| 0 <= k < c ==> (#[trigger] groups[k]).len() <= max_capacity,
        decreases components.len() - c,
    {
        if components[c].len() > max_capacity {
            proof {
                lemma_first_oversized_unique(groups, max_capacity, c as int);
            }
            let component = copy_ids(&components[c]);
            return Err(SolveError::UnsatisfiableMust { component, max_table: max_capacity });
        }
        c += 1;
    }
    proof {
        if exists|k: int| is_first_oversized(groups, max_capacity, k) {
            let k = choose|k: int| is_first_oversized(groups, max_capacity, k);
            assert(groups[k].len() <= max_capacity);
        }
    }
    let mut tables: Vec<Table> = Vec::new();
    let mut i: usize = 0;
    while i < table_capacities.len()
        invariant
            i <= table_capacities.len(),
            caps == table_capacities@,
            tables@.len() == i,
            sized(tables@),
            forall|t: int| 0 <= t < i ==> (#[trigger] tables@[t]).id == t && tables@[t].capacity == caps[t],
            seat_grid(tables@) == empty_grid(caps.take(i as int)),
        decreases table_capacities.len() - i,
    {
        let table = Table::new(i, table_capacities[i]);
        let ghost before = tables@;
        tables.push(table);
        i += 1;
        proof {
            let e = empty_grid(caps.take(i as int));
            assert forall|t: int| 0 <= t < i implies #[trigger] seat_grid(tables@)[t] == e[t] by {
                if t < i - 1 {
                    assert(tables@[t] == before[t]);
                    assert(seat_grid(before)[t] == empty_grid(caps.take(i - 1))[t]);
                }
                assert(seat_grid(tables@)[t] =~= e[t]);
            }
            assert(seat_grid(tables@) =~= e);
        }
    }
    proof {
        assert(caps.take(caps.len() as int) =~= caps);
    }
    let ghost t_init = tables@;
    let ghost order = guest_order@;
    let ghost apart = groups_apart(groups) && order.no_duplicates();
    let ghost covered = groups_cover(cs, groups);
    let mut seated: HashSet<GuestId> = HashSet::new();
    proof {
        assert(seated@ =~= seated_set(seat_grid(tables@)));
        assert(groups.skip(0) =~= groups);
        assert(same_tables(t_init, tables@));
        assert(one_seat_each(seat_grid(tables@)));
    }
    // Must groups
    let mut c: usize = 0;
    while c < components.len()
        invariant
            c <= components.len(),
            groups == components.deep_view(),
            groups.len() == components@.len(),
            forall|k: int| 0 <= k < components@.len() ==> #[trigger] groups[k] == components@[k]@,
            same_tables(t_init, tables@),
            sized(tables@),
            seated@ == seated_set(seat_grid(tables@)),
            place_groups(seat_grid(tables@), groups.skip(c as int)) == place_groups(empty_grid(caps), groups),
            apart == (groups_apart(groups) && order.no_duplicates()),
            forall|x: GuestId| seated@.contains(x) ==> exists|k: int| 0 <= k < c && #[trigger] groups[k].contains(x),
            apart ==> one_seat_each(seat_grid(tables@)),
            (forall|k: int, x: GuestId| 0 <= k < c && #[trigger] groups[k].contains(x) ==> seated@.contains(x))
                || no_room(seat_grid(tables@)),
        decreases components.len() - c,
    {
        let ghost tc = tables@;
        let ghost sc = seated@;
        let ghost gc = seat_grid(tables@);
        proof {
            lemma_skip_step(groups, c as int);
            if apart {
                assert(groups[c as int].no_duplicates());
                assert forall|x: GuestId| groups[c as int].to_set().contains(x) implies !sc.contains(x) by {
                    if sc.contains(x) {
                        let k = choose|k: int| 0 <= k < c && #[trigger] groups[k].contains(x);
                        assert(groups[c as int].contains(x));
                    }
                }
                assert(groups[c as int].to_set().disjoint(sc));
            }
        }
        place_component(&components[c], &mut tables, &mut seated);
        proof {
            lemma_same_tables(t_init, tc, tables@);
            assert forall|x: GuestId| seated@.contains(x) implies exists|k: int| 0 <= k < c + 1 && #[trigger] groups[k].contains(x) by {
                if !sc.contains(x) {
                    assert(groups[c as int].to_set().contains(x));
                    assert(groups[c as int].contains(x));
                } else {
                    let k = choose|k: int| 0 <= k < c && #[trigger] groups[k].contains(x);
                    assert(groups[k].contains(x));
                }
            }
            if !no_room(seat_grid(tables@)) {
                if no_room(gc) {
                    assert(seat_grid(tables@) == gc);
                }
                assert forall|k: int, x: GuestId| 0 <= k < c + 1 && #[trigger] groups[k].contains(x) implies seated@.contains(x) by {
                    if k == c {
                        assert(groups[c as int].to_set().contains(x));
                    } else {
                        assert(sc.contains(x));
                    }
                }
            }
        }
        c += 1;
    }
    proof {
        assert(groups.skip(groups.len() as int) =~= Seq::<Seq<GuestId>>::empty());
    }
    let ghost g1 = seat_grid(tables@);
    let ghost t1 = tables@;
    let ghost s1 = seated@;
    // Wont pairs
    match fix_wont_violations(constraints, &mut tables) {
        Ok(()) => {},
        Err(e) => {
            return Err(e);
        },
    }
    proof {
        lemma_same_tables(t_init, t1, tables@);
        if no_room(g1) {
            assert(seat_grid(tables@) == g1);
        }
    }
    let ghost g2 = seat_grid(tables@);
    let ghost s2 = seated@;
    // everybody else, by preference
    let unseated = unseated_in_order(guest_order, &seated, Ghost(g2));
    proof {
        assert(unseated@.skip(0) =~= unseated@);
        lemma_not_seated(g2, order);
        assert(seated@ =~= s2.union(unseated@.take(0).to_set()));
    }
    let mut k: usize = 0;
    while k < unseated.len()
        invariant
            k <= unseated.len(),
            constraints.wf(),
            cs == constraints.links(),
            same_tables(t_init, tables@),
            sized(tables@),
            seated@ == seated_set(seat_grid(tables@)),
            seat_by_preference(cs, seat_grid(tables@), unseated@.skip(k as int)) == seat_by_preference(cs, g2, unseated@),
            unseated@ == not_seated(g2, order),
            s2 == seated_set(g2),
            forall|x: GuestId| #[trigger] unseated@.contains(x) <==> order.contains(x) && !is_seated(g2, x),
            order.no_duplicates() ==> unseated@.no_duplicates(),
            seated@.subset_of(s2.union(unseated@.take(k as int).to_set())),
            s2.subset_of(seated@),
            apart == (groups_apart(groups) && order.no_duplicates()),
            covered == groups_cover(cs, groups),
            apart ==> one_seat_each(seat_grid(tables@)),
            apart && covered ==> wont_kept(cs, seat_grid(tables@)),
            (forall|x: GuestId| in_some_group(groups, x) ==> seated@.contains(x)) || no_room(seat_grid(tables@)),
        decreases unseated.len() - k,
    {
        let guest = unseated[k];
        let ghost gk = seat_grid(tables@);
        let ghost tk = tables@;
        let ghost sk = seated@;
        proof {
            lemma_skip_step(unseated@, k as int);
            lemma_take_last(unseated@, k as int);
        }
        match score_tables_for_guest(guest, constraints, &tables) {
            Some((t, s)) => {
                proof {
                    assert(unseated@.contains(guest));
                    if apart {
                        assert(!is_seated(gk, guest)) by {
                            if seated@.contains(guest) {
                                assert(!s2.contains(guest));
                                let j = choose|j: int| 0 <= j < k && unseated@.take(k as int)[j] == guest;
                                assert(unseated@[j] == unseated@[k as int]);
                            }
                        }
                        lemma_seat_one(gk, t as int, s as int, guest);
                        if covered {
                            assert(!no_room(gk));
                            assert forall|i: int| 0 <= i < cs.len() implies (#[trigger] cs[i]).a != guest && cs[i].b != guest by {
                                assert(in_some_group(groups, cs[i].a) && in_some_group(groups, cs[i].b));
                            }
                            lemma_seat_wont(cs, gk, t as int, s as int, guest);
                        }
                    }
                    lemma_seat_new(gk, t as int, s as int, guest);
                    lemma_seat_others(gk, t as int, s as int, guest);
                }
                put(&mut tables, t, s, Some(guest));
                seated.insert(guest);
                proof {
                    lemma_same_tables(t_init, tk, tables@);
                    lemma_sized_kept(tk, tables@);
                    assert(unseated@.take(k as int + 1).to_set() =~= unseated@.take(k as int).to_set().insert(guest));
                    if !no_room(seat_grid(tables@)) {
                        assert(!no_room(gk)) by {
                            let (t2, s2x) = choose|t2: int, s2x: int| #[trigger] is_free(seat_grid(tables@), t2, s2x);
                            assert(is_free(gk, t2, s2x));
                        }
                    }
                }
            },
            None => {
                proof {
                    assert(unseated@.take(k as int + 1).to_set() =~= unseated@.take(k as int).to_set().insert(guest));
                }
            },
        }
        k += 1;
    }
    proof {
        assert(unseated@.skip(unseated@.len() as int) =~= Seq::<GuestId>::empty());
    }
    let ghost g3 = seat_grid(tables@);
    let ghost s3 = seated@;
    // whoever is left, wherever there is room
    let remaining = unseated_in_order(guest_order, &seated, Ghost(g3));
    proof {
        assert(remaining@.skip(0) =~= remaining@);
        lemma_not_seated(g3, order);
        assert(seated@ =~= s3.union(remaining@.take(0).to_set()));
    }
    let mut k: usize = 0;
    while k < remaining.len()
        invariant
            k <= remaining.len(),
            same_tables(t_init, tables@),
            sized(tables@),
            seated@ == seated_set(seat_grid(tables@)),
            seat_anywhere(seat_grid(tables@), remaining@.skip(k as int)) == seat_anywhere(g3, remaining@),
            remaining@ == not_seated(g3, order),
            s3 == seated_set(g3),
            forall|x: GuestId| #[trigger] remaining@.contains(x) <==> order.contains(x) && !is_seated(g3, x),
            order.no_duplicates() ==> remaining@.no_duplicates(),
            seated@.subset_of(s3.union(remaining@.take(k as int).to_set())),
            s3.subset_of(seated@),
            apart == (groups_apart(groups) && order.no_duplicates()),
            covered == groups_cover(cs, groups),
            apart ==> one_seat_each(seat_grid(tables@)),
            apart && covered ==> wont_kept(cs, seat_grid(tables@)),
            (forall|x: GuestId| in_some_group(groups, x) ==> seated@.contains(x)) || no_room(seat_grid(tables@)),
            (exists|j: int| 0 <= j < k && !seated@.contains(#[trigger] remaining@[j])) ==> no_room(seat_grid(tables@)),
        decreases remaining.len() - k,
    {
        let guest = remaining[k];
        let ghost gk = seat_grid(tables@);
        let ghost tk = tables@;
        proof {
            lemma_skip_step(remaining@, k as int);
            lemma_take_last(remaining@, k as int);
        }
        match find_any_free_seat(&tables) {
            Some((t, s)) => {
                proof {
                    assert(remaining@.contains(guest));
                    if apart {
                        assert(!is_seated(gk, guest)) by {
                            if seated@.contains(guest) {
                                assert(!s3.contains(guest));
                                let j = choose|j: int| 0 <= j < k && remaining@.take(k as int)[j] == guest;
                                assert(remaining@[j] == remaining@[k as int]);
                            }
                        }
                        lemma_seat_one(gk, t as int, s as int, guest);
                        if covered {
                            assert(!no_room(gk));
                            assert forall|i: int| 0 <= i < cs.len() implies (#[trigger] cs[i]).a != guest && cs[i].b != guest by {
                                assert(in_some_group(groups, cs[i].a) && in_some_group(groups, cs[i].b));
                            }
                            lemma_seat_wont(cs, gk, t as int, s as int, guest);
                        }
                    }
                    lemma_seat_new(gk, t as int, s as int, guest);
                    lemma_seat_others(gk, t as int, s as int, guest);
                    assert(!no_room(gk));
                }
                put(&mut tables, t, s, Some(guest));
                seated.insert(guest);
                proof {
                    lemma_same_tables(t_init, tk, tables@);
                    lemma_sized_kept(tk, tables@);
                    assert(remaining@.take(k as int + 1).to_set() =~= remaining@.take(k as int).to_set().insert(guest));
                    if !no_room(seat_grid(tables@)) {
                        assert(!no_room(gk)) by {
                            let (t2, s2x) = choose|t2: int, s2x: int| #[trigger] is_free(seat_grid(tables@), t2, s2x);
                            assert(is_free(gk, t2, s2x));
                        }
                    }
                    assert forall|j: int| 0 <= j < k + 1 && !seated@.contains(#[trigger] remaining@[j]) implies no_room(seat_grid(tables@)) by {
                        if j == k {
                            assert(seated@.contains(guest));
                        }
                    }
                }
            },
            None => {
                proof {
                    assert(remaining@.take(k as int + 1).to_set() =~= remaining@.take(k as int).to_set().insert(guest));
                }
            },
        }
        k += 1;
    }
    proof {
        assert(remaining@.skip(remaining@.len() as int) =~= Seq::<GuestId>::empty());
    }
    let ghost g4 = seat_grid(tables@);
    let final_unseated = unseated_in_order(guest_order, &seated, Ghost(g4));
    proof {
        lemma_not_seated(g4, order);
        assert(arrangement(guest_order@, cs, caps, groups) == Ok::<(Seq<Seq<Seat>>, Seq<GuestId>), (GuestId, GuestId)>((g4, final_unseated@)));
    }
    // a Must constraint whose guests ended up at different tables fails the seating
    match find_must_split(constraints, &tables) {
        Some((a, b)) => {
            proof {
                let i = choose|i: int| is_first_split(cs, g4, i) && #[trigger] cs[i].a == a && cs[i].b == b;
                lemma_first_split_unique(cs, g4, i);
            }
            return Err(SolveError::MustSeparated { a, b });
        },
        None => {},
    }
    let arrangement_result = SeatingArrangement { tables, unseated: final_unseated };
    proof {
        assert forall|t: int| 0 <= t < caps.len() implies (#[trigger] arrangement_result.tables@[t]).id == t
            && arrangement_result.tables@[t].capacity == caps[t] && arrangement_result.tables@[t].seats@.len() == caps[t] by {
            assert(t_init[t].id == t);
        }
        if final_unseated@.len() > 0 {
            let x = final_unseated@[0];
            assert(final_unseated@.contains(x));
            assert(!is_seated(g3, x)) by {
                if is_seated(g3, x) {
                    assert(s3.contains(x));
                }
            }
            assert(remaining@.contains(x));
            let j = choose|j: int| 0 <= j < remaining@.len() && remaining@[j] == x;
            assert(!seated@.contains(remaining@[j]));
        }
        assert forall|x: GuestId| is_seated(g4, x) implies order.contains(x) || in_some_group(groups, x) by {
            assert(seated@.contains(x));
            if !s3.contains(x) {
                let j = choose|j: int| 0 <= j < remaining@.take(remaining@.len() as int).len() && remaining@.take(remaining@.len() as int)[j] == x;
                assert(remaining@.contains(x));
            } else if !s2.contains(x) {
                let j = choose|j: int| 0 <= j < unseated@.take(unseated@.len() as int).len() && unseated@.take(unseated@.len() as int)[j] == x;
                assert(unseated@.contains(x));
            } else {
                assert(s1.contains(x));
                let k = choose|k: int| 0 <= k < groups.len() && #[trigger] groups[k].contains(x);
            }
        }
    }
    Ok(arrangement_result)
}

/// The distinct guests of `guest_ids`, in the order in which a hash set of them
/// yields them.
fn distinct_guests(guest_ids: &[GuestId]) -> (r: Vec<GuestId>)
    ensures
        r@.no_duplicates(),
        r@.to_set() == guest_ids@.to_set(),
{
    let mut all_guests: HashSet<GuestId> = HashSet::new();
    let mut i: usize = 0;
    while i < guest_ids.len()
        invariant
            i <= guest_ids.len(),
            all_guests@ == guest_ids@.take(i as int).to_set(),
        decreases guest_ids.len() - i,
    {
        proof {
            lemma_take_last(guest_ids@, i as int);
            assert(guest_ids@.take(i as int + 1) =~= guest_ids@.take(i as int).push(guest_ids@[i as int]));
        }
        all_guests.insert(guest_ids[i]);
        i += 1;
        proof {
            assert(all_guests@ =~= guest_ids@.take(i as int).to_set());
        }
    }
    proof {
        assert(guest_ids@.take(guest_ids.len() as int) =~= guest_ids@);
    }
    let mut r: Vec<GuestId> = Vec::new();
    let ghost keys = vstd::std_specs::hash::spec_hash_keys_iter(&all_guests).remaining();
    proof {
        vstd::std_specs::hash::axiom_spec_hash_keys_iter(&all_guests);
    }
    for g in it: all_guests.iter()
        invariant
            it.seq() == keys,
            r@.len() == it.index(),
            forall|j: int| 0 <= j < it.index() ==> r@[j] == *it.seq()[j],
    {
        r.push(*g);
    }
    proof {
        assert(r@ =~= keys.unref());
    }
    r
}

proof fn lemma_first_oversized_exists(groups: Seq<Seq<GuestId>>, max: usize, i: int)
    requires
        0 <= i < groups.len(),
        groups[i].len() > max,
    ensures
        first_oversized(groups, max) is Some,
    decreases i,
{
    if exists|j: int| 0 <= j < i && (#[trigger] groups[j]).len() > max {
        let j = choose|j: int| 0 <= j < i && (#[trigger] groups[j]).len() > max;
        lemma_first_oversized_exists(groups, max, j);
    } else {
        assert(is_first_oversized(groups, max, i));
    }
}

/// A pair that cannot be separated comes from a Wont constraint.
proof fn lemma_separate_all_err(cs: Seq<Constraint>, pending: Seq<Constraint>, g: Seq<Seq<Seat>>, a: GuestId, b: GuestId)
    requires
        separate_all(cs, pending, g) == Err::<Seq<Seq<Seat>>, (GuestId, GuestId)>((a, b)),
    ensures
        exists|j: int|
            0 <= j < pending.len() && (#[trigger] pending[j]).kind == LinkType::Wont && pending[j].a == a
                && pending[j].b == b,
    decreases pending.len(),
{
    match separate(cs, g, pending[0]) {
        Err(e) => {
            assert(pending[0].kind == LinkType::Wont);
        },
        Ok(g2) => {
            lemma_separate_all_err(cs, pending.drop_first(), g2, a, b);
            let j = choose|j: int|
                0 <= j < pending.drop_first().len() && (#[trigger] pending.drop_first()[j]).kind == LinkType::Wont
                    && pending.drop_first()[j].a == a && pending.drop_first()[j].b == b;
            assert(pending[j + 1] == pending.drop_first()[j]);
        },
    }
}

/// `largest` is the largest table: no table is larger, and some table has that size.
pub proof fn lemma_largest_is_max(caps: Seq<usize>)
    ensures
        forall|i: int| 0 <= i < caps.len() ==> #[trigger] caps[i] <= largest(caps),
        caps.len() > 0 ==> exists|i: int| 0 <= i < caps.len() && #[trigger] caps[i] == largest(caps),
    decreases caps.len(),
{
    if caps.len() > 0 {
        let d = caps.drop_last();
        lemma_largest_is_max(d);
        assert forall|i: int| 0 <= i < caps.len() implies #[trigger] caps[i] <= largest(caps) by {
            if i < d.len() {
                assert(d[i] == caps[i]);
            }
        }
        if caps.last() > largest(d) {
            assert(caps[caps.len() - 1] == largest(caps));
        } else if d.len() > 0 {
            let j = choose|j: int| 0 <= j < d.len() && #[trigger] d[j] == largest(d);
            assert(caps[j] == d[j]);
        } else {
            assert(caps[0] == largest(caps));
        }
    }
}

/// When no Must group is larger than the largest table, each fits some table.
proof fn lemma_groups_fit(cs: Seq<Constraint>, members: Set<GuestId>, caps: Seq<usize>)
    requires
        caps.len() > 0,
        !has_oversized_group(cs, members, largest(caps)),
    ensures
        forall|x: GuestId, g: Set<GuestId>|
            members.contains(x) && #[trigger] is_must_group(cs, x, g) ==> exists|i: int|
                0 <= i < caps.len() && g.len() <= #[trigger] caps[i],
{
    lemma_largest_is_max(caps);
    let i = choose|i: int| 0 <= i < caps.len() && #[trigger] caps[i] == largest(caps);
    assert forall|x: GuestId, g: Set<GuestId>| members.contains(x) && #[trigger] is_must_group(cs, x, g) implies exists|j: int|
        0 <= j < caps.len() && g.len() <= #[trigger] caps[j] by {
        assert(g.len() <= caps[i]);
    }
}

/// A row without room has every seat taken.
proof fn lemma_no_room_all_taken(row: Seq<Seat>)
    requires
        room(row) == 0,
    ensures
        forall|s: int| 0 <= s < row.len() ==> (#[trigger] row[s]) is Some,
    decreases row.len(),
{
    if row.len() > 0 {
        assert(row.last() is Some);
        lemma_no_room_all_taken(row.drop_last());
        assert forall|s: int| 0 <= s < row.len() implies (#[trigger] row[s]) is Some by {
            if s < row.len() - 1 {
                assert(row.drop_last()[s] == row[s]);
            }
        }
    }
}

/// A table that can take `b` means there is a first one.
proof fn lemma_refuge_exists(cs: Seq<Constraint>, g: Seq<Seq<Seat>>, from: int, b: GuestId, i: int)
    requires
        can_take(cs, g, from, b, i),
    ensures
        refuge(cs, g, from, b) is Some,
    decreases i,
{
    if exists|i2: int| 0 <= i2 < i && #[trigger] can_take(cs, g, from, b, i2) {
        let i2 = choose|i2: int| 0 <= i2 < i && #[trigger] can_take(cs, g, from, b, i2);
        lemma_refuge_exists(cs, g, from, b, i2);
    } else {
        assert(is_first_refuge(cs, g, from, b, i));
    }
}

/// When separating the Wont pairs fails on a pair, that pair sits at one table and no
/// other table has an empty seat free of the second guest's Wont partners.
pub proof fn lemma_wont_failure_stuck(cs: Seq<Constraint>, pending: Seq<Constraint>, g: Seq<Seq<Seat>>, a: GuestId, b: GuestId)
    requires
        separate_all(cs, pending, g) == Err::<Seq<Seq<Seat>>, (GuestId, GuestId)>((a, b)),
    ensures
        wont_stuck(cs, separation_reached(cs, pending, g), a, b),
    decreases pending.len(),
{
    let c = pending[0];
    match separate(cs, g, c) {
        Err(e) => {
            assert(separation_reached(cs, pending, g) == g);
            let pa = seat_of(g, c.a)->0;
            let pb = seat_of(g, c.b)->0;
            assert(is_first_seat_of(g, c.a, pa.0, pa.1)) by {
                let p = choose|p: (int, int)| is_first_seat_of(g, c.a, p.0, p.1);
            }
            assert(is_first_seat_of(g, c.b, pb.0, pb.1)) by {
                let p = choose|p: (int, int)| is_first_seat_of(g, c.b, p.0, p.1);
            }
            assert(pa.0 == pb.0);
            assert(refuge(cs, g, pa.0, c.b) is None);
            let t = pa.0;
            assert(g[t][pa.1] == Some(a));
            assert(g[t][pb.1] == Some(b));
            assert forall|i: int| #![trigger g[i]] 0 <= i < g.len() && i != t implies (forall|s: int|
                0 <= s < g[i].len() ==> (#[trigger] g[i][s]) is Some) || (exists|s: int|
                0 <= s < g[i].len() && (#[trigger] g[i][s]) is Some && pair_kind(cs, b, g[i][s]->0) == Some(
                    LinkType::Wont,
                )) by {
                if !can_take(cs, g, t, b, i) {
                    if room(g[i]) == 0 {
                        lemma_no_room_all_taken(g[i]);
                    } else {
                        assert(wont_at(cs, g[i], b));
                        let s = choose|s: int| 0 <= s < g[i].len() && refuses(cs, b, #[trigger] g[i][s]);
                        assert(g[i][s] is Some);
                    }
                } else {
                    lemma_refuge_exists(cs, g, t, b, i);
                }
            }
            assert(wont_stuck(cs, g, a, b)) by {
                assert(g[t] == g[t]);
            }
        },
        Ok(g2) => {
            lemma_wont_failure_stuck(cs, pending.drop_first(), g2, a, b);
        },
    }
}

/// Seats the guests of `guest_ids` at tables of the sizes `table_capacities`.
/// Must is a hard constraint: a seating that leaves the two guests of a Must
/// constraint at different tables is refused with `MustSeparated`, and Wont pairs
/// never share a table. The Must groups are taken in the order in which the constraint graph yields them,
/// and the other guests in the order of a hash set of them: both orders are chosen
/// by the hash maps, so the result is that of some such pair of orders.
#[verifier::rlimit(80)]
pub fn solve(guest_ids: &[GuestId], constraints: &ConstraintGraph, table_capacities: &[usize]) -> (r: Result<SeatingArrangement, SolveError>)
    requires
        total(table_capacities@) <= usize::MAX,
    ensures
        solve_admits(guest_ids@, constraints.links(), constraints.members(), table_capacities@, r),
{
    proof {
        use_type_invariant(constraints);
    }
    let components = constraints.must_components();
    let order = distinct_guests(guest_ids);
    let r = solve_in_order(guest_ids, order.as_slice(), constraints, table_capacities, &components);
    proof {
        let cs = constraints.links();
        let members = constraints.members();
        let groups = components.deep_view();
        let caps = table_capacities@;
        let o = order@;
        constraints.lemma_wf();
        assert(solve_outcome(guest_ids@, o, cs, caps, groups, r));
        assert(o.to_set() =~= guest_ids@.to_set());
        assert forall|x: GuestId| o.contains(x) <==> guest_ids@.contains(x) by {
            assert(o.to_set().contains(x) == guest_ids@.to_set().contains(x));
        }
        // the groups are the Must partition
        assert(groups_apart(groups));
        assert forall|x: GuestId| in_some_group(groups, x) <==> members.contains(x) by {}
        assert(groups_cover(cs, groups)) by {
            assert forall|i: int| 0 <= i < cs.len() implies in_some_group(groups, (#[trigger] cs[i]).a) && in_some_group(
                groups,
                cs[i].b,
            ) by {
                assert(members.contains(cs[i].a) && members.contains(cs[i].b));
            }
        }
        if caps.len() > 0 && total(caps) >= guest_ids@.len() {
            let max = largest(caps);
            if has_oversized_group(cs, members, max) {
                let (x, h) = choose|x: GuestId, h: Set<GuestId>| members.contains(x) && #[trigger] is_must_group(cs, x, h) && h.len() > max;
                let c = choose|c: int| 0 <= c < groups.len() && #[trigger] groups[c].contains(x);
                assert(groups[c].to_set().contains(x));
                lemma_must_group_same(cs, groups[c][0], groups[c].to_set(), x, h);
                groups[c].unique_seq_to_set();
                lemma_first_oversized_exists(groups, max, c);
            }
            if first_oversized(groups, max) is Some {
                let c = first_oversized(groups, max)->0;
                let p = choose|i: int| is_first_oversized(groups, max, i);
                assert(is_first_oversized(groups, max, p));
                groups[p].unique_seq_to_set();
                assert(groups[p].contains(groups[p][0]));
                assert(members.contains(groups[p][0]));
                assert(is_must_group(cs, groups[p][0], groups[p].to_set()));
                assert(has_oversized_group(cs, members, max));
            }
        }
        if r matches Err(SolveError::UnsatisfiableWont { a, b }) {
            match arrangement(o, cs, caps, groups) {
                Err((a2, b2)) => {
                    let g1 = place_groups(empty_grid(caps), groups);
                    lemma_separate_all_err(cs, cs, g1, a2, b2);
                    lemma_wont_failure_stuck(cs, cs, g1, a2, b2);
                },
                Ok(_) => {},
            }
        }
        if r is Err && r->Err_0 is MustSeparated {
            match arrangement(o, cs, caps, groups) {
                Ok((g, _)) => {
                    let i = first_split(cs, g)->0;
                    let p = choose|p: int| is_first_split(cs, g, p);
                    assert(is_first_split(cs, g, p));
                    assert(cs[i].kind == LinkType::Must);
                },
                Err(_) => {},
            }
        }
        if r is Ok {
            let arr = r->Ok_0;
            let g = seat_grid(arr.tables@);
            lemma_no_split_kept(cs, g);
            assert(seating_laws(g, arr.unseated@, o, cs, caps, groups));
            assert(one_seat_each(g));
            assert(wont_kept(cs, g));
            assert(arr.unseated@.no_duplicates());
            assert(arr.unseated@.len() > 0 ==> no_room(g));
            assert(arr.tables@.len() == caps.len());
            assert forall|t: int| 0 <= t < caps.len() implies (#[trigger] arr.tables@[t]).id == t && arr.tables@[t].capacity
                == caps[t] && arr.tables@[t].seats@.len() == caps[t] by {
                assert(g[t] == arr.tables@[t].seats@);
            }
            assert forall|x: GuestId| #[trigger] is_seated(g, x) implies guest_ids@.contains(x) || members.contains(x) by {
                assert(o.contains(x) || in_some_group(groups, x));
            }
            assert forall|x: GuestId| #[trigger] arr.unseated@.contains(x) <==> guest_ids@.contains(x) && !is_seated(g, x) by {
                assert(arr.unseated@.contains(x) <==> o.contains(x) && !is_seated(g, x));
            }
        }
    }
    proof {
        let caps = table_capacities@;
        lemma_largest_is_max(caps);
        if caps.len() > 0 && total(caps) >= guest_ids@.len() && !(r is Err && r->Err_0 is UnsatisfiableMust) {
            lemma_groups_fit(constraints.links(), constraints.members(), caps);
        }
    }
    r
}

} // verus!
