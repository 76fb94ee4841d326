use vstd::prelude::*;

use crate::guest::GuestId;
use crate::seating::is_seated;
use crate::seq_lemmas::lemma_take_last;

verus! {

/// One seat: empty, or taken by a guest.
pub type Seat = Option<GuestId>;

/// How many seats of `row` are taken.
pub open spec fn occupied_count(row: Seq<Seat>) -> nat
    decreases row.len(),
{
    if row.len() == 0 {
        0
    } else {
        occupied_count(row.drop_last()) + if row.last() is Some { 1nat } else { 0nat }
    }
}

/// The positions of the empty seats of `row`, in increasing order.
pub open spec fn free_positions(row: Seq<Seat>) -> Seq<usize>
    decreases row.len(),
{
    if row.len() == 0 {
        Seq::empty()
    } else if row.last() is None {
        free_positions(row.drop_last()).push((row.len() - 1) as usize)
    } else {
        free_positions(row.drop_last())
    }
}

/// The numbers below `n` other than `seat`, in increasing order.
pub open spec fn range_except(n: nat, seat: usize) -> Seq<usize>
    decreases n,
{
    if n == 0 {
        Seq::empty()
    } else if (n - 1) as usize == seat {
        range_except((n - 1) as nat, seat)
    } else {
        range_except((n - 1) as nat, seat).push((n - 1) as usize)
    }
}

/// The seats next to `seat` around a round table of `capacity` seats: at a table of
/// at most two every other seat, otherwise the seat on the left and the one on the
/// right, wrapping around.
pub open spec fn adjacent_positions(capacity: usize, seat: usize) -> Seq<usize> {
    if capacity <= 2 {
        range_except(capacity as nat, seat)
    } else {
        let left = if seat == 0 {
            (capacity - 1) as usize
        } else {
            (seat - 1) as usize
        };
        let right = if seat + 1 >= capacity {
            0usize
        } else {
            (seat + 1) as usize
        };
        seq![left, right]
    }
}

/// The guests sitting on the seats `positions` of `row`, in that order; empty seats
/// are skipped.
pub open spec fn occupants_at(row: Seq<Seat>, positions: Seq<usize>) -> Seq<GuestId>
    decreases positions.len(),
{
    if positions.len() == 0 {
        Seq::empty()
    } else {
        let rest = occupants_at(row, positions.drop_last());
        match row[positions.last() as int] {
            Some(g) => rest.push(g),
            None => rest,
        }
    }
}

/// A row has no more taken seats than seats.
pub proof fn lemma_occupied_count_bound(row: Seq<Seat>)
    ensures
        occupied_count(row) <= row.len(),
    decreases row.len(),
{
    if row.len() > 0 {
        lemma_occupied_count_bound(row.drop_last());
    }
}

/// A kind of table that the hall has, and how many of it.
#[derive(Clone, Debug)]
pub struct TableConfig {
    pub capacity: usize,
    pub count: usize,
}

impl TableConfig {
    /// `count` tables of `capacity` seats.
    pub fn new(capacity: usize, count: usize) -> (r: Self)
        ensures
            r.capacity == capacity,
            r.count == count,
    {
        Self { capacity, count }
    }

    /// The seats that all tables of this kind give together.
    pub fn total_capacity(&self) -> (r: usize)
        requires
            self.capacity * self.count <= usize::MAX,
        ensures
            r == self.capacity * self.count,
    {
        self.capacity * self.count
    }
}

/// A round table: its number, its size and who sits where.
#[derive(Clone, Debug)]
pub struct Table {
    pub id: usize,
    pub capacity: usize,
    pub seats: Vec<Seat>,
}

impl Table {
    /// A table of `capacity` empty seats.
    pub fn new(id: usize, capacity: usize) -> (r: Self)
        ensures
            r.id == id,
            r.capacity == capacity,
            r.seats@ == Seq::new(capacity as nat, |i: int| None::<GuestId>),
    {
        let mut seats: Vec<Seat> = Vec::new();
        let mut i: usize = 0;
        while i < capacity
            invariant
                i <= capacity,
                seats@ == Seq::new(i as nat, |k: int| None::<GuestId>),
            decreases capacity - i,
        {
            seats.push(None);
            i += 1;
            proof {
                assert(seats@ =~= Seq::new(i as nat, |k: int| None::<GuestId>));
            }
        }
        Self { id, capacity, seats }
    }

    /// How many seats are taken.
    pub fn num_occupied(&self) -> (r: usize)
        ensures
            r == occupied_count(self.seats@),
    {
        let mut n: usize = 0;
        let mut i: usize = 0;
        while i < self.seats.len()
            invariant
                i <= self.seats.len(),
                n == occupied_count(self.seats@.take(i as int)),
            decreases self.seats.len() - i,
        {
            proof {
                lemma_take_last(self.seats@, i as int);
                lemma_occupied_count_bound(self.seats@.take(i as int));
            }
            if self.seats[i].is_some() {
                n += 1;
            }
            i += 1;
        }
        proof {
            assert(self.seats@.take(self.seats.len() as int) =~= self.seats@);
        }
        n
    }

    /// How many more guests the table takes.
    pub fn free_seats(&self) -> (r: usize)
        requires
            occupied_count(self.seats@) <= self.capacity,
        ensures
            r == self.capacity - occupied_count(self.seats@),
    {
        self.capacity - self.num_occupied()
    }

    /// Every seat is taken.
    pub fn is_full(&self) -> (r: bool)
        requires
            occupied_count(self.seats@) <= self.capacity,
        ensures
            r == (occupied_count(self.seats@) == self.capacity),
    {
        self.free_seats() == 0
    }

    /// The positions of the empty seats, in increasing order.
    pub fn free_seat_indices(&self) -> (r: Vec<usize>)
        ensures
            r@ == free_positions(self.seats@),
    {
        let mut r: Vec<usize> = Vec::new();
        let mut i: usize = 0;
        while i < self.seats.len()
            invariant
                i <= self.seats.len(),
                r@ == free_positions(self.seats@.take(i as int)),
            decreases self.seats.len() - i,
        {
            proof {
                lemma_take_last(self.seats@, i as int);
            }
            if self.seats[i].is_none() {
                r.push(i);
            }
            i += 1;
        }
        proof {
            assert(self.seats@.take(self.seats.len() as int) =~= self.seats@);
        }
        r
    }

    /// The seats next to `seat`.
    pub fn adjacent_seats(&self, seat: usize) -> (r: Vec<usize>)
        requires
            self.capacity <= 2 || seat < usize::MAX,
        ensures
            r@ == adjacent_positions(self.capacity, seat),
    {
        if self.capacity <= 2 {
            let mut r: Vec<usize> = Vec::new();
            let mut i: usize = 0;
            while i < self.capacity
                invariant
                    i <= self.capacity,
                    r@ == range_except(i as nat, seat),
                decreases self.capacity - i,
            {
                if i != seat {
                    r.push(i);
                }
                i += 1;
            }
            return r;
        }
        let left = if seat == 0 {
            self.capacity - 1
        } else {
            seat - 1
        };
        let right = if seat + 1 >= self.capacity {
            0
        } else {
            seat + 1
        };
        let mut r: Vec<usize> = Vec::new();
        r.push(left);
        r.push(right);
        proof {
            assert(r@ =~= seq![left, right]);
        }
        r
    }

    /// The guests sitting next to `seat`.
    pub fn neighbors(&self, seat: usize) -> (r: Vec<GuestId>)
        requires
            self.capacity <= 2 || seat < usize::MAX,
            forall|k: int|
                0 <= k < adjacent_positions(self.capacity, seat).len() ==> #[trigger] adjacent_positions(
                    self.capacity,
                    seat,
                )[k] < self.seats.len(),
        ensures
            r@ == occupants_at(self.seats@, adjacent_positions(self.capacity, seat)),
    {
        let adjacent = self.adjacent_seats(seat);
        let mut r: Vec<GuestId> = Vec::new();
        let mut i: usize = 0;
        while i < adjacent.len()
            invariant
                i <= adjacent.len(),
                forall|k: int| 0 <= k < adjacent@.len() ==> #[trigger] adjacent@[k] < self.seats.len(),
                r@ == occupants_at(self.seats@, adjacent@.take(i as int)),
            decreases adjacent.len() - i,
        {
            proof {
                lemma_take_last(adjacent@, i as int);
            }
            match self.seats[adjacent[i]] {
                Some(g) => r.push(g),
                None => {},
            }
            i += 1;
        }
        proof {
            assert(adjacent@.take(adjacent.len() as int) =~= adjacent@);
        }
        r
    }
}

/// The seats of every table, table by table.
pub open spec fn seat_grid(tables: Seq<Table>) -> Seq<Seq<Seat>> {
    Seq::new(tables.len(), |t: int| tables[t].seats@)
}

/// Seat `s` of table `t` exists and `id` sits there.
pub open spec fn holds(g: Seq<Seq<Seat>>, t: int, s: int, id: GuestId) -> bool {
    0 <= t < g.len() && 0 <= s < g[t].len() && g[t][s] == Some(id)
}

/// Seat (t1, s1) comes before seat (t2, s2): an earlier table, or the same table and an
/// earlier seat.
pub open spec fn earlier(t1: int, s1: int, t2: int, s2: int) -> bool {
    t1 < t2 || (t1 == t2 && s1 < s2)
}

/// (t, s) is the first seat, table by table, where `id` sits.
pub open spec fn is_first_seat_of(g: Seq<Seq<Seat>>, id: GuestId, t: int, s: int) -> bool {
    &&& holds(g, t, s, id)
    &&& forall|t2: int, s2: int| #[trigger] holds(g, t2, s2, id) ==> !earlier(t2, s2, t, s)
}

/// Where `id` first sits, table by table, if anywhere.
pub open spec fn seat_of(g: Seq<Seq<Seat>>, id: GuestId) -> Option<(int, int)> {
    if exists|p: (int, int)| is_first_seat_of(g, id, p.0, p.1) {
        Some(choose|p: (int, int)| is_first_seat_of(g, id, p.0, p.1))
    } else {
        None
    }
}

/// The first seat that holds a guest is the seat that `seat_of` names.
pub proof fn lemma_seat_of(g: Seq<Seq<Seat>>, id: GuestId, t: int, s: int)
    requires
        is_first_seat_of(g, id, t, s),
    ensures
        seat_of(g, id) == Some((t, s)),
{
    assert(is_first_seat_of(g, id, (t, s).0, (t, s).1));
    let p = choose|p: (int, int)| is_first_seat_of(g, id, p.0, p.1);
    assert(holds(g, p.0, p.1, id));
    assert(holds(g, t, s, id));
}

/// How many seats of `g` are taken.
pub open spec fn total_occupied(g: Seq<Seq<Seat>>) -> nat
    decreases g.len(),
{
    if g.len() == 0 {
        0
    } else {
        total_occupied(g.drop_last()) + occupied_count(g.last())
    }
}

/// The table and seat where `id` first sits, table by table, if anywhere.
pub open spec fn first_seat(tables: Seq<Table>, id: GuestId) -> Option<(usize, usize)> {
    match seat_of(seat_grid(tables), id) {
        Some(p) => Some((p.0 as usize, p.1 as usize)),
        None => None,
    }
}

/// Where `id` first sits, table by table.
pub(crate) fn find_guest(id: GuestId, tables: &Vec<Table>) -> (r: Option<(usize, usize)>)
    ensures
        match r {
            Some((t, s)) => seat_of(seat_grid(tables@), id) == Some((t as int, s as int)) && holds(
                seat_grid(tables@),
                t as int,
                s as int,
                id,
            ),
            None => seat_of(seat_grid(tables@), id) is None && !is_seated(seat_grid(tables@), id),
        },
        r == first_seat(tables@, id),
{
    let ghost g = seat_grid(tables@);
    let mut t: usize = 0;
    while t < tables.len()
        invariant
            t <= tables.len(),
            g == seat_grid(tables@),
            forall|t2: int, s2: int| #[trigger] holds(g, t2, s2, id) ==> t2 >= t,
        decreases tables.len() - t,
    {
        let mut s: usize = 0;
        while s < tables[t].seats.len()
            invariant
                t < tables.len(),
                s <= tables[t as int].seats.len(),
                g == seat_grid(tables@),
                forall|t2: int, s2: int| #[trigger] holds(g, t2, s2, id) ==> t2 > t || (t2 == t && s2 >= s),
            decreases tables[t as int].seats.len() - s,
        {
            if tables[t].seats[s] == Some(id) {
                proof {
                    assert(holds(g, t as int, s as int, id));
                    lemma_seat_of(g, id, t as int, s as int);
                }
                return Some((t, s));
            }
            s += 1;
        }
        t += 1;
    }
    None
}

/// The result of seating: the tables, and the guests who got no seat.
#[derive(Clone, Debug)]
pub struct SeatingArrangement {
    pub tables: Vec<Table>,
    pub unseated: Vec<GuestId>,
}

impl SeatingArrangement {
    /// An arrangement without tables and without unseated guests.
    pub fn new() -> (r: Self)
        ensures
            r.tables@ == Seq::<Table>::empty(),
            r.unseated@ == Seq::<GuestId>::empty(),
    {
        Self { tables: Vec::new(), unseated: Vec::new() }
    }

    /// Everybody got a seat.
    pub fn is_feasible(&self) -> (r: bool)
        ensures
            r == (self.unseated@.len() == 0),
    {
        self.unseated.len() == 0
    }

    /// How many seats are taken, over all tables.
    pub fn seat_count(&self) -> (r: usize)
        requires
            total_occupied(seat_grid(self.tables@)) <= usize::MAX,
        ensures
            r == total_occupied(seat_grid(self.tables@)),
    {
        let ghost g = seat_grid(self.tables@);
        let mut n: usize = 0;
        let mut t: usize = 0;
        while t < self.tables.len()
            invariant
                t <= self.tables.len(),
                g == seat_grid(self.tables@),
                total_occupied(g) <= usize::MAX,
                n == total_occupied(g.take(t as int)),
            decreases self.tables.len() - t,
        {
            proof {
                lemma_take_last(g, t as int);
                lemma_total_occupied_prefix(g, t as int + 1);
            }
            n += self.tables[t].num_occupied();
            t += 1;
        }
        proof {
            assert(g.take(self.tables.len() as int) =~= g);
        }
        n
    }

    /// The table and seat where `id` sits, the first such seat if several.
    pub fn guest_table(&self, id: GuestId) -> (r: Option<(usize, usize)>)
        ensures
            match r {
                Some((t, s)) => seat_of(seat_grid(self.tables@), id) == Some((t as int, s as int)),
                None => seat_of(seat_grid(self.tables@), id) is None,
            },
            r == first_seat(self.tables@, id),
    {
        find_guest(id, &self.tables)
    }
}

proof fn lemma_total_occupied_prefix(g: Seq<Seq<Seat>>, n: int)
    requires
        0 <= n <= g.len(),
    ensures
        total_occupied(g.take(n)) <= total_occupied(g),
    decreases g.len(),
{
    if n < g.len() {
        assert(g.drop_last().take(n) =~= g.take(n));
        lemma_total_occupied_prefix(g.drop_last(), n);
    } else {
        assert(g.take(n) =~= g);
    }
}

/// What `free_positions` lists: exactly the empty seats, each once, in increasing order.
pub proof fn lemma_free_positions(row: Seq<Seat>)
    requires
        row.len() <= usize::MAX,
    ensures
        forall|k: int|
            0 <= k < free_positions(row).len() ==> (#[trigger] free_positions(row)[k]) < row.len()
                && row[free_positions(row)[k] as int] is None,
        forall|s: int|
            0 <= s < row.len() && #[trigger] row[s] is None ==> exists|k: int|
                0 <= k < free_positions(row).len() && #[trigger] free_positions(row)[k] == s,
        forall|i: int, j: int|
            0 <= i < j < free_positions(row).len() ==> #[trigger] free_positions(row)[i]
                < #[trigger] free_positions(row)[j],
        free_positions(row).len() + occupied_count(row) == row.len(),
    decreases row.len(),
{
    if row.len() > 0 {
        let d = row.drop_last();
        lemma_free_positions(d);
        let f = free_positions(row);
        let fd = free_positions(d);
        assert forall|k: int| 0 <= k < f.len() implies (#[trigger] f[k]) < row.len() && row[f[k] as int] is None by {
            if k < fd.len() {
                assert(f[k] == fd[k]);
                assert(row[fd[k] as int] == d[fd[k] as int]);
            } else {
                assert(row.last() is None);
                assert(f[k] == row.len() - 1);
            }
        }
        assert forall|s: int| 0 <= s < row.len() && #[trigger] row[s] is None implies exists|k: int|
            0 <= k < f.len() && #[trigger] f[k] == s by {
            if s < row.len() - 1 {
                assert(d[s] == row[s]);
                let k = choose|k: int| 0 <= k < fd.len() && #[trigger] fd[k] == s;
                assert(f[k] == fd[k]);
            } else {
                assert(row.last() is None);
                assert(f[f.len() - 1] == s);
            }
        }
        assert forall|i: int, j: int| 0 <= i < j < f.len() implies #[trigger] f[i] < #[trigger] f[j] by {
            if j < fd.len() {
                assert(f[i] == fd[i] && f[j] == fd[j]);
            } else {
                assert(f[i] == fd[i]);
            }
        }
    }
}

/// The seats next to a seat of a table are seats of that table, at most two of them.
pub proof fn lemma_adjacent_positions(capacity: usize, seat: usize)
    requires
        seat < capacity,
    ensures
        adjacent_positions(capacity, seat).len() <= 2,
        forall|k: int|
            0 <= k < adjacent_positions(capacity, seat).len() ==> #[trigger] adjacent_positions(capacity, seat)[k]
                < capacity,
{
    if capacity <= 2 {
        lemma_range_except(capacity as nat, seat);
    }
}

proof fn lemma_range_except(n: nat, seat: usize)
    ensures
        range_except(n, seat).len() <= n,
        forall|k: int| 0 <= k < range_except(n, seat).len() ==> #[trigger] range_except(n, seat)[k] < n,
    decreases n,
{
    if n > 0 {
        lemma_range_except((n - 1) as nat, seat);
    }
}

/// Each position gives at most one occupant.
pub proof fn lemma_occupants_len(row: Seq<Seat>, positions: Seq<usize>)
    ensures
        occupants_at(row, positions).len() <= positions.len(),
    decreases positions.len(),
{
    if positions.len() > 0 {
        lemma_occupants_len(row, positions.drop_last());
    }
}

} // verus!
