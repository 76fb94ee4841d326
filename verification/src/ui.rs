use vstd::prelude::*;

use crate::constraint::{adjacency, pair_kind, without_pair, Constraint, ConstraintGraph, Link, LinkType};
use crate::guest::{accepts, guest_added, ids_of, GuestId, GuestList};
use crate::seating::{solve_admits, total};
use crate::solver::{error_message, solve, SolveError};
use crate::table::{SeatingArrangement, TableConfig};
use crate::text::{contains, lowercase, occurs_in, to_lowercase, trim, trimmed};
use crate::seq_lemmas::lemma_take_last;

verus! {

/// What the screen remembers between frames: the text fields, the guest whose
/// constraints are open, whether the seating must be made anew, the last error, the
/// table form and the import and export requests.
pub struct AppUi {
    pub new_guest_name: String,
    pub selected_guest: Option<GuestId>,
    pub constraint_search_must: String,
    pub constraint_search_should: String,
    pub constraint_search_could: String,
    pub constraint_search_wont: String,
    pub needs_solve: bool,
    pub solve_error: Option<String>,
    pub new_table_capacity: usize,
    pub new_table_count: usize,
    pub export_requested: bool,
    pub import_requested: bool,
}

/// How a seated guest's border is marked: by how many Must or Should partners sit
/// next to them (two or more, one, none).
#[derive(Clone, Copy, Debug, PartialEq, Eq, Structural)]
pub enum SeatMark {
    Green,
    Yellow,
    Red,
}

/// The size of every table that the table kinds give, kind by kind.
pub open spec fn capacities_of(tables: Seq<TableConfig>) -> Seq<usize>
    decreases tables.len(),
{
    if tables.len() == 0 {
        Seq::empty()
    } else {
        capacities_of(tables.drop_last()) + Seq::new(tables.last().count as nat, |i: int| tables.last().capacity)
    }
}

/// How many tables the kinds give together.
pub open spec fn kinds_count(tables: Seq<TableConfig>) -> int
    decreases tables.len(),
{
    if tables.len() == 0 {
        0
    } else {
        kinds_count(tables.drop_last()) + tables.last().count
    }
}

proof fn lemma_kinds_count_prefix(tables: Seq<TableConfig>, k: int)
    requires
        0 <= k < tables.len(),
    ensures
        kinds_count(tables.take(k)) + tables[k].count <= kinds_count(tables),
        kinds_count(tables.take(k)) >= 0,
    decreases tables.len(),
{
    let d = tables.drop_last();
    if k == tables.len() - 1 {
        assert(tables.take(k) =~= d);
        lemma_kinds_count_nonneg(d);
    } else {
        lemma_kinds_count_prefix(d, k);
        assert(tables.take(k) =~= d.take(k));
        assert(d[k] == tables[k]);
    }
}

proof fn lemma_kinds_count_nonneg(tables: Seq<TableConfig>)
    ensures
        kinds_count(tables) >= 0,
    decreases tables.len(),
{
    if tables.len() > 0 {
        lemma_kinds_count_nonneg(tables.drop_last());
    }
}

/// The tables that the kinds give: as many as their counts together, kind by kind,
/// each kind giving `count` tables of its size one after the other.
pub proof fn lemma_capacities_layout(tables: Seq<TableConfig>)
    ensures
        capacities_of(tables).len() == kinds_count(tables),
        forall|k: int, j: int|
            0 <= k < tables.len() && 0 <= j < tables[k].count ==> #[trigger] capacities_of(tables)[kinds_count(
                tables.take(k),
            ) + j] == #[trigger] tables[k].capacity,
    decreases tables.len(),
{
    if tables.len() > 0 {
        let d = tables.drop_last();
        lemma_capacities_layout(d);
        let c = capacities_of(tables);
        let cd = capacities_of(d);
        assert forall|k: int, j: int|
            0 <= k < tables.len() && 0 <= j < tables[k].count implies #[trigger] c[kinds_count(tables.take(k)) + j]
                == #[trigger] tables[k].capacity by {
            if k < d.len() {
                assert(tables.take(k) =~= d.take(k));
                assert(d[k] == tables[k]);
                lemma_kinds_count_prefix(d, k);
                assert(cd[kinds_count(d.take(k)) + j] == d[k].capacity);
            } else {
                assert(tables.take(k) =~= d);
            }
        }
    }
}

proof fn lemma_total_concat(a: Seq<usize>, b: Seq<usize>)
    ensures
        total(a + b) == total(a) + total(b),
    decreases b.len(),
{
    if b.len() > 0 {
        lemma_total_concat(a, b.drop_last());
        assert((a + b).drop_last() =~= a + b.drop_last());
    } else {
        assert(a + b =~= a);
    }
}

proof fn lemma_total_repeat(n: nat, c: usize)
    ensures
        total(Seq::new(n, |i: int| c)) == n * c,
    decreases n,
{
    let s = Seq::new(n, |i: int| c);
    if n > 0 {
        lemma_total_repeat((n - 1) as nat, c);
        assert(s.drop_last() =~= Seq::new((n - 1) as nat, |i: int| c));
        assert(s.last() == c);
        assert(total(s) == total(s.drop_last()) + c);
        assert((n - 1) * c + c == n * c) by (nonlinear_arith);
    } else {
        assert(total(s) == 0);
    }
}

/// The seats of the table kinds are the seats of the tables they give: the total of
/// `capacities_of` is the sum of size times count.
pub proof fn lemma_seat_total_is_capacities(tables: Seq<TableConfig>)
    ensures
        total(capacities_of(tables)) == seat_total(tables),
    decreases tables.len(),
{
    if tables.len() > 0 {
        let d = tables.drop_last();
        let t = tables.last();
        lemma_seat_total_is_capacities(d);
        lemma_total_concat(capacities_of(d), Seq::new(t.count as nat, |i: int| t.capacity));
        lemma_total_repeat(t.count as nat, t.capacity);
    }
}

/// `a` and `b` agree on everything but the last error and whether a seating is due.
pub open spec fn same_screen(a: AppUi, b: AppUi) -> bool {
    &&& a.new_guest_name == b.new_guest_name
    &&& a.selected_guest == b.selected_guest
    &&& a.constraint_search_must == b.constraint_search_must
    &&& a.constraint_search_should == b.constraint_search_should
    &&& a.constraint_search_could == b.constraint_search_could
    &&& a.constraint_search_wont == b.constraint_search_wont
    &&& a.new_table_capacity == b.new_table_capacity
    &&& a.new_table_count == b.new_table_count
    &&& a.export_requested == b.export_requested
    &&& a.import_requested == b.import_requested
}

/// The screen `ui` and the seating `arr` record the outcome `r` of a solve.
pub open spec fn records_outcome(ui: AppUi, arr: Option<SeatingArrangement>, r: Result<SeatingArrangement, SolveError>) -> bool {
    match r {
        Ok(a) => arr == Some(a) && ui.solve_error is None,
        Err(e) => arr is None && ui.solve_error is Some && ui.solve_error->0@ == error_message(e),
    }
}

/// The numbers in `adj` of the links of kind `kind`, in order.
pub open spec fn ids_of_kind(adj: Seq<Link>, kind: LinkType) -> Seq<GuestId>
    decreases adj.len(),
{
    if adj.len() == 0 {
        Seq::empty()
    } else if adj.last().1 == kind {
        ids_of_kind(adj.drop_last(), kind).push(adj.last().0)
    } else {
        ids_of_kind(adj.drop_last(), kind)
    }
}

/// `k` is a Must or a Should link.
pub open spec fn is_strong(k: Option<LinkType>) -> bool {
    k == Some(LinkType::Must) || k == Some(LinkType::Should)
}

/// How many of `ns` have a Must or Should link with `x`.
pub open spec fn strong_count(cs: Seq<Constraint>, x: GuestId, ns: Seq<GuestId>) -> nat
    decreases ns.len(),
{
    if ns.len() == 0 {
        0
    } else {
        strong_count(cs, x, ns.drop_last()) + if is_strong(pair_kind(cs, x, ns.last())) {
            1nat
        } else {
            0nat
        }
    }
}

/// The seats of all tables of all kinds.
pub open spec fn seat_total(tables: Seq<TableConfig>) -> int
    decreases tables.len(),
{
    if tables.len() == 0 {
        0
    } else {
        seat_total(tables.drop_last()) + tables.last().capacity * tables.last().count
    }
}

/// The search text `search` lets `name` through: it is empty once lower-cased, or
/// the lower-cased name holds it.
pub open spec fn search_lets_through(search: Seq<char>, name: Seq<char>) -> bool {
    lowercase(search).len() == 0 || occurs_in(lowercase(search), lowercase(name))
}

/// `i` is the first of `cands` whose name equals `search` when both are lower-cased.
pub open spec fn is_first_exact(cands: Seq<(GuestId, String)>, search: Seq<char>, i: int) -> bool {
    &&& 0 <= i < cands.len()
    &&& lowercase(cands[i].1@) == lowercase(search)
    &&& forall|j: int| 0 <= j < i ==> lowercase((#[trigger] cands[j]).1@) != lowercase(search)
}

/// `a` and `b` agree on everything but the selected guest.
pub open spec fn same_but_selection(a: AppUi, b: AppUi) -> bool {
    &&& a.new_guest_name == b.new_guest_name
    &&& a.constraint_search_must == b.constraint_search_must
    &&& a.constraint_search_should == b.constraint_search_should
    &&& a.constraint_search_could == b.constraint_search_could
    &&& a.constraint_search_wont == b.constraint_search_wont
    &&& a.needs_solve == b.needs_solve
    &&& a.solve_error == b.solve_error
    &&& a.new_table_capacity == b.new_table_capacity
    &&& a.new_table_count == b.new_table_count
    &&& a.export_requested == b.export_requested
    &&& a.import_requested == b.import_requested
}

/// `a` and `b` agree on everything but the last error.
pub open spec fn same_but_error(a: AppUi, b: AppUi) -> bool {
    &&& a.new_guest_name == b.new_guest_name
    &&& a.selected_guest == b.selected_guest
    &&& a.constraint_search_must == b.constraint_search_must
    &&& a.constraint_search_should == b.constraint_search_should
    &&& a.constraint_search_could == b.constraint_search_could
    &&& a.constraint_search_wont == b.constraint_search_wont
    &&& a.needs_solve == b.needs_solve
    &&& a.new_table_capacity == b.new_table_capacity
    &&& a.new_table_count == b.new_table_count
    &&& a.export_requested == b.export_requested
    &&& a.import_requested == b.import_requested
}

impl AppUi {
    /// A fresh screen: empty fields, nothing selected, a seating wanted, tables of
    /// eight offered one at a time.
    pub fn new() -> (r: Self)
        ensures
            r.new_guest_name@ == Seq::<char>::empty(),
            r.selected_guest is None,
            r.constraint_search_must@ == Seq::<char>::empty(),
            r.constraint_search_should@ == Seq::<char>::empty(),
            r.constraint_search_could@ == Seq::<char>::empty(),
            r.constraint_search_wont@ == Seq::<char>::empty(),
            r.needs_solve,
            r.solve_error is None,
            r.new_table_capacity == 8,
            r.new_table_count == 1,
            !r.export_requested,
            !r.import_requested,
    {
        Self {
            new_guest_name: String::new(),
            selected_guest: None,
            constraint_search_must: String::new(),
            constraint_search_should: String::new(),
            constraint_search_could: String::new(),
            constraint_search_wont: String::new(),
            needs_solve: true,
            solve_error: None,
            new_table_capacity: 8,
            new_table_count: 1,
            export_requested: false,
            import_requested: false,
        }
    }

    /// Seats the guests at the tables that the table kinds give, and records the
    /// seating or the error. Without tables it only says so; without guests it clears
    /// both.
    pub fn run_solver(
        &mut self,
        guests: &GuestList,
        constraints: &ConstraintGraph,
        tables: &[TableConfig],
        arrangement: &mut Option<SeatingArrangement>,
    )
        requires
            capacities_of(tables@).len() <= usize::MAX,
            total(capacities_of(tables@)) <= usize::MAX,
        ensures
            same_but_error(*final(self), *old(self)),
            tables@.len() == 0 ==> final(self).solve_error is Some && final(self).solve_error->0@
                == "Add at least one table first"@ && *final(arrangement) == *old(arrangement),
            tables@.len() > 0 && guests.roster().len() == 0 ==> final(self).solve_error is None
                && *final(arrangement) is None,
            tables@.len() > 0 && guests.roster().len() > 0 ==> exists|r: Result<SeatingArrangement, SolveError>|
                #[trigger] solve_admits(
                    ids_of(guests.roster()),
                    constraints.links(),
                    constraints.members(),
                    capacities_of(tables@),
                    r,
                ) && records_outcome(*final(self), *final(arrangement), r),
    {
        if tables.len() == 0 {
            proof {
                reveal_strlit("Add at least one table first");
            }
            self.solve_error = Some(String::from_str("Add at least one table first"));
            return;
        }
        let guest_ids = guests.guest_ids();
        if guest_ids.len() == 0 {
            self.solve_error = None;
            *arrangement = None;
            return;
        }
        let ghost all = capacities_of(tables@);
        let mut capacities: Vec<usize> = Vec::new();
        let mut t: usize = 0;
        while t < tables.len()
            invariant
                t <= tables.len(),
                all == capacities_of(tables@),
                capacities@ == capacities_of(tables@.take(t as int)),
            decreases tables.len() - t,
        {
            let cap = tables[t].capacity;
            let count = tables[t].count;
            let ghost before = capacities@;
            let mut k: usize = 0;
            while k < count
                invariant
                    k <= count,
                    capacities@ == before + Seq::new(k as nat, |j: int| cap),
                decreases count - k,
            {
                capacities.push(cap);
                k += 1;
                proof {
                    assert(capacities@ =~= before + Seq::new(k as nat, |j: int| cap));
                }
            }
            proof {
                lemma_take_last(tables@, t as int);
            }
            t += 1;
        }
        proof {
            assert(tables@.take(tables@.len() as int) =~= tables@);
        }
        match solve(guest_ids.as_slice(), constraints, capacities.as_slice()) {
            Ok(result) => {
                *arrangement = Some(result);
                self.solve_error = None;
            },
            Err(e) => {
                self.solve_error = Some(e.to_string());
                *arrangement = None;
            },
        }
    }

    /// Makes the seating anew when one is due and there are guests and tables; it is
    /// then no longer due.
    pub fn solve_if_needed(
        &mut self,
        guests: &GuestList,
        constraints: &ConstraintGraph,
        tables: &Vec<TableConfig>,
        arrangement: &mut Option<SeatingArrangement>,
    )
        requires
            capacities_of(tables@).len() <= usize::MAX,
            total(capacities_of(tables@)) <= usize::MAX,
        ensures
            same_screen(*final(self), *old(self)),
            !(old(self).needs_solve && guests.roster().len() > 0 && tables@.len() > 0) ==> *final(self) == *old(self)
                && *final(arrangement) == *old(arrangement),
            old(self).needs_solve && guests.roster().len() > 0 && tables@.len() > 0 ==> !final(self).needs_solve
                && exists|r: Result<SeatingArrangement, SolveError>|
                #[trigger] solve_admits(
                    ids_of(guests.roster()),
                    constraints.links(),
                    constraints.members(),
                    capacities_of(tables@),
                    r,
                ) && records_outcome(*final(self), *final(arrangement), r),
    {
        if self.needs_solve && guests.len() > 0 && tables.len() > 0 {
            self.run_solver(guests, constraints, tables.as_slice(), arrangement);
            self.needs_solve = false;
        }
    }

    /// Adds the table kind of the form (its size and count); a new seating is due.
    pub fn add_table_kind(&mut self, tables: &mut Vec<TableConfig>)
        ensures
            final(tables)@ == old(tables)@.push(TableConfig { capacity: old(self).new_table_capacity, count: old(self).new_table_count }),
            final(self).needs_solve,
            same_screen(*final(self), *old(self)),
            final(self).solve_error == old(self).solve_error,
    {
        tables.push(TableConfig::new(self.new_table_capacity, self.new_table_count));
        self.needs_solve = true;
    }

    /// Asks the application to export the plan.
    pub fn request_export(&mut self)
        ensures
            final(self).export_requested,
            final(self).import_requested == old(self).import_requested,
            same_but_error(*final(self), AppUi { export_requested: true, ..*old(self) }),
            final(self).solve_error == old(self).solve_error,
    {
        self.export_requested = true;
    }

    /// Asks the application to import a plan.
    pub fn request_import(&mut self)
        ensures
            final(self).import_requested,
            final(self).export_requested == old(self).export_requested,
            same_but_error(*final(self), AppUi { import_requested: true, ..*old(self) }),
            final(self).solve_error == old(self).solve_error,
    {
        self.import_requested = true;
    }

    /// Removes table kind `idx`; a new seating is due.
    pub fn remove_table_kind(&mut self, tables: &mut Vec<TableConfig>, idx: usize)
        requires
            idx < old(tables)@.len(),
        ensures
            final(tables)@ == old(tables)@.remove(idx as int),
            final(self).needs_solve,
            same_screen(*final(self), *old(self)),
            final(self).solve_error == old(self).solve_error,
    {
        tables.remove(idx);
        self.needs_solve = true;
    }

    /// Forgets the selected guest once nobody on the list has that number.
    pub fn drop_stale_selection(&mut self, guests: &GuestList)
        ensures
            final(self).selected_guest == (match old(self).selected_guest {
                Some(id) => if exists|i: int| 0 <= i < guests.roster().len() && (#[trigger] guests.roster()[i]).id == id {
                    Some(id)
                } else {
                    None
                },
                None => None,
            }),
            same_but_selection(*final(self), *old(self)),
    {
        if let Some(selected) = self.selected_guest {
            if guests.get(selected).is_none() {
                self.selected_guest = None;
            }
        }
    }

    /// Adds the name typed in the guest field, when it is not blank: the field is then
    /// cleared and a new seating is due.
    pub fn submit_guest_name(&mut self, guests: &mut GuestList)
        requires
            accepts(old(guests).roster(), trimmed(old(self).new_guest_name@)) ==> old(guests).next_id() < usize::MAX,
        ensures
            trimmed(old(self).new_guest_name@).len() == 0 ==> *final(self) == *old(self) && *final(guests)
                == *old(guests),
            trimmed(old(self).new_guest_name@).len() > 0 ==> {
                &&& guest_added(*old(guests), *final(guests), trimmed(old(self).new_guest_name@))
                &&& final(self).new_guest_name@ == Seq::<char>::empty()
                &&& final(self).needs_solve
                &&& final(self).solve_error == old(self).solve_error
                &&& same_screen(*final(self), AppUi { new_guest_name: final(self).new_guest_name, ..*old(self) })
            },
    {
        let name = trim(self.new_guest_name.as_str()).to_string();
        if name.as_str().is_empty() {
            return;
        }
        guests.add(name);
        self.new_guest_name = String::new();
        self.needs_solve = true;
    }
}

/// The mark of a seat with `strong` Must or Should partners next to it.
pub fn seat_mark(strong: usize) -> (r: SeatMark)
    ensures
        r == (if strong >= 2 {
            SeatMark::Green
        } else if strong == 1 {
            SeatMark::Yellow
        } else {
            SeatMark::Red
        }),
{
    if strong >= 2 {
        SeatMark::Green
    } else if strong == 1 {
        SeatMark::Yellow
    } else {
        SeatMark::Red
    }
}

/// Links `selected` and `other` by `kind` from a constraint section: the search
/// text is cleared and a new seating is due.
pub fn add_link(
    constraints: &mut ConstraintGraph,
    selected: GuestId,
    other: GuestId,
    kind: LinkType,
    search: &mut String,
    needs_solve: &mut bool,
)
    ensures
        selected != other ==> final(constraints).links() == without_pair(old(constraints).links(), selected, other).push(
            Constraint { a: selected, b: other, kind },
        ) && final(constraints).members() == old(constraints).members().insert(selected).insert(other),
        selected == other ==> final(constraints).links() == old(constraints).links() && final(constraints).members()
            == old(constraints).members(),
        final(search)@ == Seq::<char>::empty(),
        *final(needs_solve),
{
    constraints.add(selected, other, kind);
    *needs_solve = true;
    *search = String::new();
}

/// Unlinks `selected` and `other` from a constraint section; a new seating is due.
pub fn drop_link(constraints: &mut ConstraintGraph, selected: GuestId, other: GuestId, needs_solve: &mut bool)
    ensures
        final(constraints).links() == without_pair(old(constraints).links(), selected, other),
        final(constraints).members() == old(constraints).members().insert(selected).insert(other),
        *final(needs_solve),
{
    constraints.remove(selected, other);
    *needs_solve = true;
}

/// The guests linked to `selected` by a link of kind `kind`, in the order of its links.
pub fn linked_of_kind(constraints: &ConstraintGraph, selected: GuestId, kind: LinkType) -> (r: Vec<GuestId>)
    ensures
        r@ == ids_of_kind(adjacency(constraints.links(), selected), kind),
{
    let links = constraints.neighbors(selected);
    let mut r: Vec<GuestId> = Vec::new();
    let mut i: usize = 0;
    while i < links.len()
        invariant
            i <= links.len(),
            r@ == ids_of_kind(links@.take(i as int), kind),
        decreases links.len() - i,
    {
        proof {
            lemma_take_last(links@, i as int);
        }
        if links[i].1 == kind {
            r.push(links[i].0);
        }
        i += 1;
    }
    proof {
        assert(links@.take(links@.len() as int) =~= links@);
    }
    r
}

/// Whether the search text `search` lets the name `name` through.
pub fn name_matches(search: &str, name: &str) -> (r: bool)
    ensures
        r == search_lets_through(search@, name@),
{
    let lower_search = to_lowercase(search);
    if lower_search.as_str().is_empty() {
        return true;
    }
    let lower_name = to_lowercase(name);
    contains(lower_name.as_str(), lower_search.as_str())
}

/// The first candidate whose name is the search text, case aside.
pub fn find_exact(candidates: &Vec<(GuestId, String)>, search: &str) -> (r: Option<GuestId>)
    ensures
        match r {
            Some(id) => exists|i: int| is_first_exact(candidates@, search@, i) && candidates@[i].0 == id,
            None => forall|i: int|
                0 <= i < candidates@.len() ==> lowercase((#[trigger] candidates@[i]).1@) != lowercase(search@),
        },
{
    let lower = to_lowercase(search);
    let mut i: usize = 0;
    while i < candidates.len()
        invariant
            i <= candidates.len(),
            lower@ == lowercase(search@),
            forall|j: int| 0 <= j < i ==> lowercase((#[trigger] candidates@[j]).1@) != lowercase(search@),
        decreases candidates.len() - i,
    {
        let name_lower = to_lowercase(candidates[i].1.as_str());
        if name_lower == lower {
            proof {
                assert(is_first_exact(candidates@, search@, i as int));
            }
            return Some(candidates[i].0);
        }
        i += 1;
    }
    None
}

/// How many of the guests `neighbors` have a Must or Should link with `guest`.
pub fn strong_link_count(constraints: &ConstraintGraph, guest: GuestId, neighbors: &Vec<GuestId>) -> (r: usize)
    ensures
        r == strong_count(constraints.links(), guest, neighbors@),
{
    let mut n: usize = 0;
    let mut i: usize = 0;
    while i < neighbors.len()
        invariant
            i <= neighbors.len(),
            n == strong_count(constraints.links(), guest, neighbors@.take(i as int)),
            n <= i,
        decreases neighbors.len() - i,
    {
        proof {
            lemma_take_last(neighbors@, i as int);
        }
        let k = constraints.get(guest, neighbors[i]);
        match k {
            Some(LinkType::Must) | Some(LinkType::Should) => {
                n += 1;
            },
            _ => {},
        }
        i += 1;
    }
    proof {
        assert(neighbors@.take(neighbors@.len() as int) =~= neighbors@);
    }
    n
}

proof fn lemma_seat_total_grows(tables: Seq<TableConfig>, i: int)
    requires
        0 <= i <= tables.len(),
    ensures
        seat_total(tables.take(i)) <= seat_total(tables),
    decreases tables.len() - i,
{
    if i < tables.len() {
        lemma_seat_total_grows(tables, i + 1);
        lemma_take_last(tables, i);
        let c = tables[i];
        assert(c.capacity * c.count >= 0) by (nonlinear_arith);
    } else {
        assert(tables.take(i) =~= tables);
    }
}

/// The seats of all tables together.
pub fn total_seats(tables: &Vec<TableConfig>) -> (r: usize)
    requires
        seat_total(tables@) <= usize::MAX,
    ensures
        r == seat_total(tables@),
        r == total(capacities_of(tables@)),
{
    proof {
        lemma_seat_total_is_capacities(tables@);
    }
    let mut sum: usize = 0;
    let mut i: usize = 0;
    while i < tables.len()
        invariant
            i <= tables.len(),
            seat_total(tables@) <= usize::MAX,
            sum == seat_total(tables@.take(i as int)),
        decreases tables.len() - i,
    {
        proof {
            lemma_take_last(tables@, i as int);
            lemma_seat_total_grows(tables@, i + 1);
            let c = tables@[i as int];
            assert(c.capacity * c.count >= 0) by (nonlinear_arith);
        }
        sum = sum + tables[i].total_capacity();
        i += 1;
    }
    proof {
        assert(tables@.take(tables@.len() as int) =~= tables@);
    }
    sum
}

} // verus!
