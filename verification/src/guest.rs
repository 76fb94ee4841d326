use vstd::prelude::*;

use crate::text::{contains, lemma_trimmed_idempotent, lowercase, occurs_in, to_lowercase, trim, trimmed};
use crate::seq_lemmas::lemma_take_last;

verus! {

/// Guests are known by a number that the guest list hands out.
pub type GuestId = usize;

/// A guest: the number the list gave it and its name.
#[derive(Clone, Debug)]
pub struct Guest {
    pub id: GuestId,
    pub name: String,
}

/// The guests in the order they were added, with the filter text of the search box.
#[derive(Clone, Debug)]
pub struct GuestList {
    pub guests: Vec<Guest>,
    next_id: GuestId,
    pub filter: String,
}

/// Some guest of `gs` is called `name`.
pub open spec fn name_taken(gs: Seq<Guest>, name: Seq<char>) -> bool {
    exists|i: int| 0 <= i < gs.len() && (#[trigger] gs[i]).name@ == name
}

/// `name` is a name the list takes: not blank once trimmed, and not taken yet.
pub open spec fn accepts(gs: Seq<Guest>, name: Seq<char>) -> bool {
    trimmed(name).len() > 0 && !name_taken(gs, trimmed(name))
}

/// The position of the first guest of `gs` with number `id`, if any.
pub open spec fn is_first_with_id(gs: Seq<Guest>, id: GuestId, i: int) -> bool {
    &&& 0 <= i < gs.len()
    &&& gs[i].id == id
    &&& forall|j: int| 0 <= j < i ==> (#[trigger] gs[j]).id != id
}

/// `gs` without the guests numbered `id`, order kept.
pub open spec fn without_id(gs: Seq<Guest>, id: GuestId) -> Seq<Guest>
    decreases gs.len(),
{
    if gs.len() == 0 {
        gs
    } else if gs.last().id == id {
        without_id(gs.drop_last(), id)
    } else {
        without_id(gs.drop_last(), id).push(gs.last())
    }
}

/// The guests of `gs` that the filter `f` shows: all when it is empty, else those
/// whose lower-case name holds the lower-case filter.
pub open spec fn shown(gs: Seq<Guest>, f: Seq<char>) -> Seq<Guest>
    decreases gs.len(),
{
    if gs.len() == 0 {
        gs
    } else if f.len() == 0 || occurs_in(lowercase(f), lowercase(gs.last().name@)) {
        shown(gs.drop_last(), f).push(gs.last())
    } else {
        shown(gs.drop_last(), f)
    }
}

/// The numbers of the guests of `gs`, in order.
pub open spec fn ids_of(gs: Seq<Guest>) -> Seq<GuestId> {
    gs.map_values(|g: Guest| g.id)
}

/// The guests of `gs` that may still be linked to `selected`: not `selected` itself
/// and not in `current`, each as its number and name, in list order.
pub open spec fn candidates_of(gs: Seq<Guest>, selected: GuestId, current: Seq<GuestId>) -> Seq<(GuestId, Seq<char>)>
    decreases gs.len(),
{
    if gs.len() == 0 {
        Seq::empty()
    } else {
        let rest = candidates_of(gs.drop_last(), selected, current);
        let g = gs.last();
        if g.id != selected && !current.contains(g.id) {
            rest.push((g.id, g.name@))
        } else {
            rest
        }
    }
}

/// What adding the name `name` does to the list `before`, giving `after`: a name that
/// the list takes joins at the end under the next number; any other leaves the list as
/// it was. Either way the name is then on the list (unless it is blank), and a
/// consistent list stays consistent.
pub open spec fn guest_added(before: GuestList, after: GuestList, name: Seq<char>) -> bool {
    &&& after.filter_text() == before.filter_text()
    &&& !accepts(before.roster(), name) ==> after.roster() == before.roster() && after.next_id() == before.next_id()
    &&& accepts(before.roster(), name) ==> {
        &&& after.roster().len() == before.roster().len() + 1
        &&& after.roster().take(before.roster().len() as int) == before.roster()
        &&& after.roster().last().id == before.next_id()
        &&& after.roster().last().name@ == trimmed(name)
        &&& after.next_id() == before.next_id() + 1
    }
    &&& trimmed(name).len() > 0 ==> name_taken(after.roster(), trimmed(name))
    &&& before.wf() ==> after.wf()
    &&& before.wf() && accepts(before.roster(), name) ==> is_first_with_id(
        after.roster(),
        before.next_id(),
        before.roster().len() as int,
    )
}

/// No two guests of `gs` share a number or a name.
pub open spec fn distinct_guests(gs: Seq<Guest>) -> bool {
    forall|i: int, j: int|
        0 <= i < gs.len() && 0 <= j < gs.len() && i != j ==> (#[trigger] gs[i]).id != (#[trigger] gs[j]).id
            && gs[i].name@ != gs[j].name@
}

/// Every guest of `gs` has a number below `next` and a trimmed name that is not empty.
pub open spec fn sound_guests(gs: Seq<Guest>, next: GuestId) -> bool {
    forall|i: int|
        0 <= i < gs.len() ==> (#[trigger] gs[i]).id < next && gs[i].name@.len() > 0 && trimmed(gs[i].name@)
            == gs[i].name@
}

/// What `without_id` keeps: guests of `gs` not numbered `id`, and with them the
/// distinctness and soundness of `gs`.
pub proof fn lemma_without_id(gs: Seq<Guest>, id: GuestId, next: GuestId)
    ensures
        without_id(gs, id).len() <= gs.len(),
        forall|k: int| 0 <= k < without_id(gs, id).len() ==> gs.contains(#[trigger] without_id(gs, id)[k]),
        forall|k: int| 0 <= k < without_id(gs, id).len() ==> (#[trigger] without_id(gs, id)[k]).id != id,
        forall|k: int| 0 <= k < gs.len() && gs[k].id != id ==> without_id(gs, id).contains(#[trigger] gs[k]),
        distinct_guests(gs) ==> distinct_guests(without_id(gs, id)),
        sound_guests(gs, next) ==> sound_guests(without_id(gs, id), next),
    decreases gs.len(),
{
    if gs.len() > 0 {
        let rest = gs.drop_last();
        lemma_without_id(rest, id, next);
        let r = without_id(gs, id);
        let rr = without_id(rest, id);
        assert forall|k: int| 0 <= k < r.len() implies gs.contains(#[trigger] r[k]) by {
            if k < rr.len() {
                assert(rest.contains(rr[k]));
                let j = choose|j: int| 0 <= j < rest.len() && rest[j] == rr[k];
                assert(gs[j] == r[k]);
            } else {
                assert(gs[gs.len() - 1] == r[k]);
            }
        }
        assert forall|k: int| 0 <= k < gs.len() && gs[k].id != id implies r.contains(#[trigger] gs[k]) by {
            if k < gs.len() - 1 {
                assert(rest[k] == gs[k]);
                assert(rr.contains(rest[k]));
                let j = choose|j: int| 0 <= j < rr.len() && rr[j] == rest[k];
                assert(r[j] == gs[k]);
            } else {
                assert(r[r.len() - 1] == gs[k]);
            }
        }
        if distinct_guests(gs) {
            assert(distinct_guests(rest)) by {
                assert forall|i: int, j: int|
                    0 <= i < rest.len() && 0 <= j < rest.len() && i != j implies (#[trigger] rest[i]).id
                        != (#[trigger] rest[j]).id && rest[i].name@ != rest[j].name@ by {
                    assert(rest[i] == gs[i] && rest[j] == gs[j]);
                }
            }
            assert forall|i: int, j: int|
                0 <= i < r.len() && 0 <= j < r.len() && i != j implies (#[trigger] r[i]).id
                    != (#[trigger] r[j]).id && r[i].name@ != r[j].name@ by {
                if i < rr.len() && j < rr.len() {
                    assert(r[i] == rr[i] && r[j] == rr[j]);
                } else {
                    let (a, b) = if i < rr.len() { (i, j) } else { (j, i) };
                    assert(rest.contains(rr[a]));
                    let m = choose|m: int| 0 <= m < rest.len() && rest[m] == rr[a];
                    assert(gs[m] == r[a]);
                    assert(gs[gs.len() - 1] == r[b]);
                }
            }
        }
        if sound_guests(gs, next) {
            assert forall|k: int| 0 <= k < r.len() implies (#[trigger] r[k]).id < next && r[k].name@.len() > 0
                && trimmed(r[k].name@) == r[k].name@ by {
                assert(gs.contains(r[k]));
                let m = choose|m: int| 0 <= m < gs.len() && gs[m] == r[k];
                assert(gs[m].id < next);
            }
        }
    }
}

/// Whether `v` holds `x`.
fn vec_contains(v: &Vec<GuestId>, x: GuestId) -> (r: bool)
    ensures
        r == v@.contains(x),
{
    let mut i: usize = 0;
    while i < v.len()
        invariant
            i <= v.len(),
            forall|j: int| 0 <= j < i ==> v@[j] != x,
        decreases v.len() - i,
    {
        if v[i] == x {
            return true;
        }
        i += 1;
    }
    false
}

/// What the filter shows, guest by guest: with an empty filter everybody; otherwise
/// exactly the guests whose lower-case name holds the lower-case filter, in list
/// order (the list filtered by that test).
pub proof fn lemma_shown_by_name(gs: Seq<Guest>, f: Seq<char>)
    ensures
        shown(gs, f) == gs.filter(|g: Guest| f.len() == 0 || occurs_in(lowercase(f), lowercase(g.name@))),
        forall|i: int|
            0 <= i < shown(gs, f).len() ==> f.len() == 0 || occurs_in(lowercase(f), lowercase((#[trigger] shown(gs, f)[i]).name@)),
        forall|i: int|
            0 <= i < gs.len() && (f.len() == 0 || occurs_in(lowercase(f), lowercase(gs[i].name@))) ==> shown(gs, f).contains(
                #[trigger] gs[i],
            ),
    decreases gs.len(),
{
    let pred = |g: Guest| f.len() == 0 || occurs_in(lowercase(f), lowercase(g.name@));
    reveal(Seq::filter);
    if gs.len() > 0 {
        lemma_shown_by_name(gs.drop_last(), f);
        assert(shown(gs, f) == gs.filter(pred));
    } else {
        assert(shown(gs, f) == gs.filter(pred));
    }
    broadcast use vstd::seq_lib::group_filter_ensures;
    assert forall|i: int| 0 <= i < shown(gs, f).len() implies f.len() == 0 || occurs_in(
        lowercase(f),
        lowercase((#[trigger] shown(gs, f)[i]).name@),
    ) by {
        assert(pred(gs.filter(pred)[i]));
    }
    assert forall|i: int|
        0 <= i < gs.len() && (f.len() == 0 || occurs_in(lowercase(f), lowercase(gs[i].name@))) implies shown(gs, f).contains(
        #[trigger] gs[i],
    ) by {
        assert(pred(gs[i]));
        assert(gs.filter(pred).contains(gs[i]));
    }
}

/// Adding a name a second time changes nothing: the list already has it.
pub proof fn lemma_add_twice(before: GuestList, mid: GuestList, after: GuestList, name: Seq<char>)
    requires
        guest_added(before, mid, name),
        guest_added(mid, after, name),
    ensures
        after.roster() == mid.roster(),
        after.next_id() == mid.next_id(),
{
}

/// With an empty filter every guest is shown, in list order.
pub proof fn lemma_empty_filter_shows_all(gs: Seq<Guest>)
    ensures
        shown(gs, Seq::<char>::empty()) == gs,
    decreases gs.len(),
{
    if gs.len() > 0 {
        lemma_empty_filter_shows_all(gs.drop_last());
        assert(gs.drop_last().push(gs.last()) =~= gs);
    }
}

impl GuestList {
    /// The number the next guest gets.
    pub closed spec fn next_id(&self) -> GuestId {
        self.next_id
    }

    /// The guests, in list order.
    pub closed spec fn roster(&self) -> Seq<Guest> {
        self.guests@
    }

    /// The filter text.
    pub closed spec fn filter_text(&self) -> Seq<char> {
        self.filter@
    }

    /// The list's consistency: numbers are distinct and below the next number, and
    /// names are distinct, trimmed and not empty.
    pub closed spec fn wf(&self) -> bool {
        distinct_guests(self.guests@) && sound_guests(self.guests@, self.next_id)
    }

    /// What a consistent list guarantees: no two guests share a number or a name, every
    /// number is below the next one handed out, and every name is trimmed and not empty.
    pub proof fn lemma_wf(&self)
        requires
            self.wf(),
        ensures
            distinct_guests(self.roster()),
            sound_guests(self.roster(), self.next_id()),
    {
    }

    /// An empty list whose first guest will get number 0.
    pub fn new() -> (r: Self)
        ensures
            r.roster() == Seq::<Guest>::empty(),
            r.next_id() == 0,
            r.filter_text() == Seq::<char>::empty(),
            r.wf(),
    {
        Self { guests: Vec::new(), next_id: 0, filter: String::new() }
    }

    /// Whether the list takes `name`: not blank once trimmed, and not on the list yet.
    pub fn accepts_name(&self, name: &str) -> (r: bool)
        ensures
            r == accepts(self.roster(), name@),
    {
        let trimmed_name = trim(name).to_string();
        if trimmed_name.as_str().is_empty() {
            return false;
        }
        let mut i: usize = 0;
        while i < self.guests.len()
            invariant
                i <= self.guests.len(),
                trimmed_name@ == trimmed(name@),
                forall|j: int| 0 <= j < i ==> (#[trigger] self.guests@[j]).name@ != trimmed_name@,
            decreases self.guests.len() - i,
        {
            if self.guests[i].name == trimmed_name {
                proof {
                    assert(self.roster()[i as int].name@ == trimmed(name@));
                }
                return false;
            }
            i += 1;
        }
        true
    }

    /// The guest at position `i` of the list.
    pub fn guest_at(&self, i: usize) -> (r: &Guest)
        requires
            i < self.roster().len(),
        ensures
            *r == self.roster()[i as int],
    {
        &self.guests[i]
    }

    /// Sets the search text that `filtered` goes by.
    pub fn set_filter(&mut self, filter: String)
        ensures
            final(self).filter_text() == filter@,
            final(self).roster() == old(self).roster(),
            final(self).next_id() == old(self).next_id(),
            old(self).wf() ==> final(self).wf(),
    {
        self.filter = filter;
    }

    /// Adds a guest named `name` with surrounding white space removed, numbered with
    /// the next number; blank names and names already on the list are ignored.
    pub fn add(&mut self, name: String)
        requires
            accepts(old(self).roster(), name@) ==> old(self).next_id() < usize::MAX,
        ensures
            guest_added(*old(self), *final(self), name@),
    {
        if !self.accepts_name(name.as_str()) {
            return;
        }
        let trimmed_name = trim(name.as_str()).to_string();
        let ghost before = self.guests@;
        let ghost was_wf = self.wf();
        self.guests.push(Guest { id: self.next_id, name: trimmed_name });
        self.next_id += 1;
        proof {
            let n = before.len() as int;
            assert(self.guests@.take(n) =~= before);
            assert(self.roster()[n].name@ == trimmed(name@));
            lemma_trimmed_idempotent(name@);
            if was_wf {
                assert(distinct_guests(self.guests@)) by {
                    assert forall|a: int, b: int|
                        0 <= a < self.guests@.len() && 0 <= b < self.guests@.len() && a != b implies (
                        #[trigger] self.guests@[a]).id != (#[trigger] self.guests@[b]).id
                            && self.guests@[a].name@ != self.guests@[b].name@ by {
                        if a < n && b < n {
                            assert(self.guests@[a] == before[a] && self.guests@[b] == before[b]);
                        } else if a < n {
                            assert(self.guests@[a] == before[a]);
                        } else {
                            assert(self.guests@[b] == before[b]);
                        }
                    }
                }
                assert(sound_guests(self.guests@, self.next_id)) by {
                    assert forall|k: int| 0 <= k < self.guests@.len() implies (#[trigger] self.guests@[k]).id
                        < self.next_id && self.guests@[k].name@.len() > 0 && trimmed(self.guests@[k].name@)
                        == self.guests@[k].name@ by {
                        if k < n {
                            assert(self.guests@[k] == before[k]);
                        }
                    }
                }
            }
        }
    }

    /// Removes the guests numbered `id`.
    pub fn remove(&mut self, id: GuestId)
        ensures
            final(self).roster() == without_id(old(self).roster(), id),
            final(self).next_id() == old(self).next_id(),
            final(self).filter_text() == old(self).filter_text(),
            forall|i: int| 0 <= i < final(self).roster().len() ==> (#[trigger] final(self).roster()[i]).id != id,
            old(self).wf() ==> final(self).wf(),
    {
        let mut kept: Vec<Guest> = Vec::new();
        let mut i: usize = 0;
        while i < self.guests.len()
            invariant
                i <= self.guests.len(),
                kept@ == without_id(self.guests@.take(i as int), id),
            decreases self.guests.len() - i,
        {
            proof {
                lemma_take_last(self.guests@, i as int);
            }
            if self.guests[i].id != id {
                kept.push(Guest { id: self.guests[i].id, name: self.guests[i].name.clone() });
            }
            i += 1;
        }
        proof {
            assert(self.guests@.take(self.guests.len() as int) =~= self.guests@);
            lemma_without_id(self.guests@, id, self.next_id);
        }
        self.guests = kept;
    }

    /// The number the next guest added will get.
    pub fn next_number(&self) -> (r: GuestId)
        ensures
            r == self.next_id(),
    {
        self.next_id
    }

    /// How many guests are on the list.
    pub fn len(&self) -> (r: usize)
        ensures
            r == self.roster().len(),
    {
        self.guests.len()
    }

    /// Nobody is on the list.
    pub fn is_empty(&self) -> (r: bool)
        ensures
            r == (self.roster().len() == 0),
    {
        self.guests.len() == 0
    }

    /// The first guest numbered `id`.
    pub fn get(&self, id: GuestId) -> (r: Option<&Guest>)
        ensures
            match r {
                Some(g) => exists|i: int| is_first_with_id(self.roster(), id, i) && self.roster()[i] == *g,
                None => forall|i: int| 0 <= i < self.roster().len() ==> (#[trigger] self.roster()[i]).id != id,
            },
    {
        let mut i: usize = 0;
        while i < self.guests.len()
            invariant
                i <= self.guests.len(),
                forall|j: int| 0 <= j < i ==> (#[trigger] self.guests@[j]).id != id,
            decreases self.guests.len() - i,
        {
            if self.guests[i].id == id {
                proof {
                    assert(is_first_with_id(self.roster(), id, i as int));
                    assert(self.roster()[i as int] == self.guests@[i as int]);
                }
                return Some(&self.guests[i]);
            }
            i += 1;
        }
        None
    }

    /// The numbers of the guests, in list order.
    pub fn guest_ids(&self) -> (r: Vec<GuestId>)
        ensures
            r@ == ids_of(self.roster()),
    {
        let mut r: Vec<GuestId> = Vec::new();
        let mut i: usize = 0;
        while i < self.guests.len()
            invariant
                i <= self.guests.len(),
                r@ == self.guests@.take(i as int).map_values(|g: Guest| g.id),
            decreases self.guests.len() - i,
        {
            r.push(self.guests[i].id);
            i += 1;
            proof {
                assert(r@ =~= self.guests@.take(i as int).map_values(|g: Guest| g.id));
            }
        }
        proof {
            assert(self.guests@.take(self.guests.len() as int) =~= self.guests@);
        }
        r
    }

    /// The guests that may still be linked to `selected`: everybody but `selected` and
    /// the guests in `current`, as number and name, in list order.
    pub fn candidates(&self, selected: GuestId, current: &Vec<GuestId>) -> (r: Vec<(GuestId, String)>)
        ensures
            r@.len() == candidates_of(self.roster(), selected, current@).len(),
            forall|i: int|
                0 <= i < r@.len() ==> (#[trigger] r@[i]).0 == candidates_of(self.roster(), selected, current@)[i].0
                    && r@[i].1@ == candidates_of(self.roster(), selected, current@)[i].1,
    {
        let mut r: Vec<(GuestId, String)> = Vec::new();
        let mut i: usize = 0;
        while i < self.guests.len()
            invariant
                i <= self.guests.len(),
                r@.len() == candidates_of(self.guests@.take(i as int), selected, current@).len(),
                forall|k: int|
                    0 <= k < r@.len() ==> (#[trigger] r@[k]).0 == candidates_of(
                        self.guests@.take(i as int),
                        selected,
                        current@,
                    )[k].0 && r@[k].1@ == candidates_of(self.guests@.take(i as int), selected, current@)[k].1,
            decreases self.guests.len() - i,
        {
            proof {
                lemma_take_last(self.guests@, i as int);
            }
            let id = self.guests[i].id;
            if id != selected && !vec_contains(current, id) {
                r.push((id, self.guests[i].name.clone()));
            }
            i += 1;
        }
        proof {
            assert(self.guests@.take(self.guests.len() as int) =~= self.guests@);
        }
        r
    }

    /// The guests that the filter shows, in list order.
    pub fn filtered(&self) -> (r: Vec<&Guest>)
        ensures
            r@.len() == shown(self.roster(), self.filter_text()).len(),
            forall|i: int| 0 <= i < r@.len() ==> *r@[i] == #[trigger] shown(self.roster(), self.filter_text())[i],
            forall|i: int|
                0 <= i < r@.len() ==> self.filter_text().len() == 0 || occurs_in(
                    lowercase(self.filter_text()),
                    lowercase((*#[trigger] r@[i]).name@),
                ),
            forall|j: int|
                0 <= j < self.roster().len() && (self.filter_text().len() == 0 || occurs_in(
                    lowercase(self.filter_text()),
                    lowercase(self.roster()[j].name@),
                )) ==> exists|i: int| 0 <= i < r@.len() && *r@[i] == #[trigger] self.roster()[j],
    {
        proof {
            lemma_shown_by_name(self.roster(), self.filter_text());
        }
        let mut r: Vec<&Guest> = Vec::new();
        if self.filter.as_str().is_empty() {
            let mut i: usize = 0;
            while i < self.guests.len()
                invariant
                    i <= self.guests.len(),
                    self.filter@.len() == 0,
                    r@.len() == shown(self.guests@.take(i as int), self.filter@).len(),
                    forall|k: int| 0 <= k < r@.len() ==> *r@[k] == #[trigger] shown(self.guests@.take(i as int), self.filter@)[k],
                decreases self.guests.len() - i,
            {
                proof {
                    lemma_take_last(self.guests@, i as int);
                }
                r.push(&self.guests[i]);
                i += 1;
            }
            proof {
                assert(self.guests@.take(self.guests.len() as int) =~= self.guests@);
            }
            return r;
        }
        let lower = to_lowercase(self.filter.as_str());
        let mut i: usize = 0;
        while i < self.guests.len()
            invariant
                i <= self.guests.len(),
                self.filter@.len() > 0,
                lower@ == lowercase(self.filter@),
                r@.len() == shown(self.guests@.take(i as int), self.filter@).len(),
                forall|k: int| 0 <= k < r@.len() ==> *r@[k] == #[trigger] shown(self.guests@.take(i as int), self.filter@)[k],
            decreases self.guests.len() - i,
        {
            proof {
                lemma_take_last(self.guests@, i as int);
            }
            let name_lower = to_lowercase(self.guests[i].name.as_str());
            if contains(name_lower.as_str(), lower.as_str()) {
                r.push(&self.guests[i]);
            }
            i += 1;
        }
        proof {
            assert(self.guests@.take(self.guests.len() as int) =~= self.guests@);
        }
        proof {
            let sh = shown(self.roster(), self.filter_text());
            assert forall|i: int| 0 <= i < r@.len() implies self.filter_text().len() == 0 || occurs_in(
                lowercase(self.filter_text()),
                lowercase((*#[trigger] r@[i]).name@),
            ) by {
                assert(*r@[i] == sh[i]);
            }
            assert forall|j: int|
                0 <= j < self.roster().len() && (self.filter_text().len() == 0 || occurs_in(
                    lowercase(self.filter_text()),
                    lowercase(self.roster()[j].name@),
                )) implies exists|i: int| 0 <= i < r@.len() && *r@[i] == #[trigger] self.roster()[j] by {
                assert(sh.contains(self.roster()[j]));
                let i = choose|i: int| 0 <= i < sh.len() && sh[i] == self.roster()[j];
                assert(*r@[i] == sh[i]);
            }
        }
        r
    }
}

} // verus!
