//! A vector whose entries are reached through generational handles: a handle
//! stops working once its entry is removed, and is never handed out again
//! for the same slot and generation.
use core::marker::PhantomData;
use vstd::prelude::*;

verus! {

/// How many times an entry's slot has been filled: never 0; `u32::MAX` marks
/// a dangling handle.
#[derive(Debug, Clone, Copy, PartialEq, Eq, Hash, Structural)]
struct Generation(u32);

impl Generation {
    fn is_dangling(&self) -> (r: bool)
        ensures
            r == (self.0 == u32::MAX),
    {
        self.0 == u32::MAX
    }

    fn new() -> (r: Self)
        ensures
            r.0 == 1,
    {
        Generation(1)
    }

    /// The next generation, or `None` once the counter is exhausted.
    fn try_bump(self) -> (r: Option<Self>)
        ensures
            self.0 == u32::MAX ==> r is None,
            self.0 < u32::MAX ==> r == Some(Generation((self.0 + 1) as u32)),
    {
        if self.0 == u32::MAX {
            None
        } else {
            Some(Generation(self.0 + 1))
        }
    }
}

/// A cheap reference to an entry of a [`GenVec`].
#[derive(Debug, Hash)]
pub struct Handle<T> {
    index: u32,
    generation: Generation,
    type_marker: PhantomData<T>,
}

impl<T> Clone for Handle<T> {
    fn clone(&self) -> (r: Self)
        ensures
            r == *self,
    {
        *self
    }
}

impl<T> Copy for Handle<T> {
}

impl<T> Handle<T> {
    /// The slot the handle refers to.
    pub closed spec fn slot(&self) -> nat {
        self.index as nat
    }

    /// The generation the slot must have for the handle to be valid.
    pub closed spec fn generation(&self) -> u32 {
        self.generation.0
    }

    /// A handle that refers to nothing, for two-phase initialization.
    pub fn dangling() -> (r: Self)
        ensures
            r.slot() == 0,
            r.generation() == u32::MAX,
    {
        Self { index: 0, generation: Generation(u32::MAX), type_marker: PhantomData }
    }

    /// Whether this is the dangling handle.
    pub fn is_dangling(&self) -> (r: bool)
        ensures
            r == (self.slot() == 0 && self.generation() == u32::MAX),
    {
        self.index == 0 && self.generation.is_dangling()
    }

    fn new(index: u32, generation: Generation) -> (r: Self)
        ensures
            r.slot() == index,
            r.generation() == generation.0,
    {
        Self { index, generation, type_marker: PhantomData }
    }
}

impl<T> PartialEq for Handle<T> {
    fn eq(&self, other: &Self) -> (r: bool)
        ensures
            r == (self.slot() == other.slot() && self.generation() == other.generation()),
    {
        self.index == other.index && self.generation == other.generation
    }
}

impl<T> vstd::std_specs::cmp::PartialEqSpecImpl for Handle<T> {
    open spec fn obeys_eq_spec() -> bool {
        true
    }

    open spec fn eq_spec(&self, other: &Self) -> bool {
        self.slot() == other.slot() && self.generation() == other.generation()
    }
}

impl<T> Eq for Handle<T> {
}

impl<T> Default for Handle<T> {
    /// The dangling handle.
    fn default() -> (r: Self)
        ensures
            r.slot() == 0,
            r.generation() == u32::MAX,
    {
        Self::dangling()
    }
}

/// An entry: occupied when `value` is `Some`.
#[derive(Debug)]
struct Entry<T> {
    generation: Generation,
    value: Option<T>,
}

/// Proof that a value was taken out of an entry; hand it back with
/// [`GenVec::put_back`].
pub struct Ticket<T> {
    index: u32,
    type_marker: PhantomData<T>,
}

impl<T> Ticket<T> {
    /// The slot the value was taken from.
    pub closed spec fn slot(&self) -> nat {
        self.index as nat
    }

    fn new(index: u32) -> (r: Self)
        ensures
            r.slot() == index,
    {
        Self { index, type_marker: PhantomData }
    }
}

/// A vector of entries reached through [`Handle`]s.
#[derive(Debug)]
pub struct GenVec<T> {
    entries: Vec<Entry<T>>,
    free_indices: Vec<u32>,
}

impl<T> Default for GenVec<T> {
    /// An empty vector.
    fn default() -> (r: Self)
        ensures
            r.wf(),
            r.count() == 0,
            r.free_list().len() == 0,
    {
        Self { entries: Vec::new(), free_indices: Vec::new() }
    }
}

impl<T> GenVec<T> {
    /// Number of slots, occupied or vacant.
    pub closed spec fn count(&self) -> nat {
        self.entries@.len()
    }

    /// The generation of slot `i`.
    pub closed spec fn generation_at(&self, i: int) -> u32 {
        self.entries@[i].generation.0
    }

    /// The value in slot `i`, if it is occupied.
    pub closed spec fn value_at(&self, i: int) -> Option<T> {
        self.entries@[i].value
    }

    /// The vacant slots that insertion may reuse, the last one first.
    pub closed spec fn free_list(&self) -> Seq<u32> {
        self.free_indices@
    }

    /// The occupied slots below `n`, in order.
    pub closed spec fn live_upto(&self, n: nat) -> Seq<int>
        decreases n,
    {
        if n == 0 {
            seq![]
        } else if self.value_at(n - 1) is Some {
            self.live_upto((n - 1) as nat).push(n - 1)
        } else {
            self.live_upto((n - 1) as nat)
        }
    }

    /// The occupied slots, in order.
    pub open spec fn live_slots(&self) -> Seq<int> {
        self.live_upto(self.count())
    }

    /// Whether `h` refers to a slot with its generation.
    pub open spec fn refers(&self, h: Handle<T>) -> bool {
        h.slot() < self.count() && self.generation_at(h.slot() as int) == h.generation()
    }

    /// What `h` reaches: the value of its slot, if it refers to it and the slot
    /// is occupied.
    pub open spec fn lookup(&self, h: Handle<T>) -> Option<T> {
        if self.refers(h) {
            self.value_at(h.slot() as int)
        } else {
            None
        }
    }

    /// The invariant: slots fit a `u32` index, and the free list holds
    /// distinct vacant slots.
    pub open spec fn wf(&self) -> bool {
        &&& self.count() <= u32::MAX
        &&& self.free_list().no_duplicates()
        &&& forall|k: int|
            0 <= k < self.free_list().len() ==> (#[trigger] self.free_list()[k]) < self.count()
                && self.value_at(self.free_list()[k] as int) is None
    }

    /// Slots other than `i` are as they were in `old`.
    pub open spec fn same_except(&self, old: &Self, i: int) -> bool {
        forall|k: int|
            0 <= k < old.count() && k != i ==> #[trigger] self.generation_at(k)
                == old.generation_at(k) && self.value_at(k) == old.value_at(k)
    }

    /// An empty vector with room for `capacity` entries.
    pub fn with_capacity(capacity: usize) -> (r: Self)
        ensures
            r.wf(),
            r.count() == 0,
            r.free_list().len() == 0,
    {
        Self { entries: Vec::with_capacity(capacity), free_indices: Vec::new() }
    }


    /// The value `handle` reaches, if any.
    pub fn try_get(&self, handle: Handle<T>) -> (r: Option<&T>)
        ensures
            match self.lookup(handle) {
                Some(v) => r == Some(&v),
                None => r is None,
            },
    {
        let i = handle.index as usize;
        if i < self.entries.len() && self.entries[i].generation == handle.generation {
            self.entries[i].value.as_ref()
        } else {
            None
        }
    }

    /// The value `handle` reaches; the handle must reach one.
    pub fn get(&self, handle: Handle<T>) -> (r: &T)
        requires
            self.lookup(handle) is Some,
        ensures
            *r == self.lookup(handle)->0,
    {
        self.try_get(handle).unwrap()
    }

    /// Puts the value `callback` makes, given the handle it will have, into a
    /// vacant slot: the last freed one whose generation can still grow, or a
    /// new one at the end.
    pub fn insert_with<F: FnOnce(Handle<T>) -> T>(&mut self, callback: F) -> (r: Handle<T>)
        requires
            old(self).wf(),
            old(self).count() < u32::MAX,
            forall|h: Handle<T>| callback.requires((h,)),
        ensures
            final(self).wf(),
            final(self).refers(r),
            final(self).value_at(r.slot() as int) is Some,
            callback.ensures((r,), final(self).value_at(r.slot() as int)->0),
            final(self).same_except(old(self), r.slot() as int),
            r.slot() < old(self).count() ==> final(self).count() == old(self).count()
                && old(self).value_at(r.slot() as int) is None && r.generation()
                == old(self).generation_at(r.slot() as int) + 1,
            r.slot() >= old(self).count() ==> r.slot() == old(self).count() && final(self).count()
                == old(self).count() + 1,
    {
        while self.free_indices.len() > 0
            invariant
                self.wf(),
                self.count() == old(self).count(),
                old(self).count() < u32::MAX,
                self.entries@ == old(self).entries@,
                forall|h: Handle<T>| callback.requires((h,)),
            decreases self.free_indices@.len(),
        {
            let ghost before = self.free_indices@;
            let ghost last = self.free_indices@.len() - 1;
            proof {
                assert(self.free_list()[last] < self.count());
                assert(self.value_at(self.free_list()[last] as int) is None);
            }
            let index = self.free_indices.pop().unwrap();
            proof {
                assert(before[before.len() - 1] == index);
                assert(old(self).value_at(index as int) is None);
                assert(self.free_indices@ =~= before.drop_last());
                assert(forall|k: int|
                    0 <= k < self.free_indices@.len() ==> self.free_indices@[k] == before[k]);
                assert(forall|k: int|
                    0 <= k < self.free_indices@.len() ==> self.free_indices@[k] != index);
            }
            let i = index as usize;
            let current = self.entries[i].generation;
            match current.try_bump() {
                Some(generation) => {
                    let handle = Handle::new(index, generation);
                    let value = callback(handle);
                    let ghost mid = self.entries@;
                    self.entries.set(i, Entry { generation, value: Some(value) });
                    proof {
                        assert forall|k: int| 0 <= k < old(self).count() && k != i implies #[trigger] self.generation_at(k)
                            == old(self).generation_at(k) && self.value_at(k) == old(self).value_at(k) by {
                            assert(self.entries@[k] == mid[k]);
                        }
                    }
                    return handle;
                },
                None => {},
            }
        }
        let handle = Handle::new(self.entries.len() as u32, Generation::new());
        let value = callback(handle);
        let ghost mid = self.entries@;
        self.entries.push(Entry { generation: handle.generation, value: Some(value) });
        proof {
            assert forall|k: int| 0 <= k < old(self).count() && k != handle.slot() implies #[trigger] self.generation_at(k)
                == old(self).generation_at(k) && self.value_at(k) == old(self).value_at(k) by {
                assert(self.entries@[k] == mid[k]);
            }
        }
        handle
    }

    /// Puts `value` into a vacant slot, as `insert_with` does.
    pub fn insert(&mut self, value: T) -> (r: Handle<T>)
        requires
            old(self).wf(),
            old(self).count() < u32::MAX,
        ensures
            final(self).wf(),
            final(self).refers(r),
            final(self).value_at(r.slot() as int) == Some(value),
            final(self).same_except(old(self), r.slot() as int),
            r.slot() < old(self).count() ==> final(self).count() == old(self).count()
                && old(self).value_at(r.slot() as int) is None && r.generation()
                == old(self).generation_at(r.slot() as int) + 1,
            r.slot() >= old(self).count() ==> r.slot() == old(self).count() && final(self).count()
                == old(self).count() + 1,
    {
        self.insert_with(move |_handle: Handle<T>| -> (v: T)
            ensures
                v == value,
            { value })
    }

    /// Takes the value `handle` reaches out of its slot, which becomes free for
    /// reuse; the handle must reach a value.
    pub fn remove(&mut self, handle: Handle<T>) -> (r: T)
        requires
            old(self).wf(),
            old(self).lookup(handle) is Some,
        ensures
            final(self).wf(),
            r == old(self).lookup(handle)->0,
            final(self).count() == old(self).count(),
            final(self).value_at(handle.slot() as int) is None,
            final(self).generation_at(handle.slot() as int) == old(self).generation_at(
                handle.slot() as int,
            ),
            final(self).same_except(old(self), handle.slot() as int),
            final(self).free_list() == old(self).free_list().push(handle.slot() as u32),
    {
        let i = handle.index as usize;
        let mut vacant = Entry { generation: handle.generation, value: None };
        self.entries.set_and_swap(i, &mut vacant);
        proof {
            assert(!self.free_indices@.contains(handle.index)) by {
                if self.free_indices@.contains(handle.index) {
                    let k = choose|k: int|
                        0 <= k < self.free_indices@.len() && self.free_indices@[k] == handle.index;
                    assert(old(self).value_at(self.free_indices@[k] as int) is None);
                }
            }
        }
        self.free_indices.push(handle.index);
        vacant.value.unwrap()
    }

    /// Takes the value `handle` reaches out of its slot, with a ticket to put
    /// it back by; `None` when the handle reaches no value. Until the value is
    /// put back, no handle reaches that slot's value.
    pub fn try_take(&mut self, handle: Handle<T>) -> (r: Option<(Ticket<T>, T)>)
        requires
            old(self).wf(),
        ensures
            final(self).wf(),
            final(self).count() == old(self).count(),
            final(self).free_list() == old(self).free_list(),
            match old(self).lookup(handle) {
                Some(v) => match r {
                    Some(pair) => {
                        &&& pair.0.slot() == handle.slot()
                        &&& pair.1 == v
                        &&& final(self).value_at(handle.slot() as int) is None
                    &&& final(self).generation_at(handle.slot() as int) == old(self).generation_at(
                        handle.slot() as int,
                    )
                        &&& final(self).same_except(old(self), handle.slot() as int)
                    },
                    None => false,
                },
                None => r is None && final(self).same_except(old(self), -1),
            },
    {
        let i = handle.index as usize;
        if i < self.entries.len() && self.entries[i].generation == handle.generation
            && self.entries[i].value.is_some() {
            let mut vacant = Entry { generation: handle.generation, value: None };
            self.entries.set_and_swap(i, &mut vacant);
            return Some((Ticket::new(handle.index), vacant.value.unwrap()));
        }
        None
    }

    /// As `try_take`, for a handle that reaches a value.
    pub fn take(&mut self, handle: Handle<T>) -> (r: (Ticket<T>, T))
        requires
            old(self).wf(),
            old(self).lookup(handle) is Some,
        ensures
            final(self).wf(),
            final(self).count() == old(self).count(),
            final(self).free_list() == old(self).free_list(),
            r.0.slot() == handle.slot(),
            r.1 == old(self).lookup(handle)->0,
            final(self).value_at(handle.slot() as int) is None,
            final(self).generation_at(handle.slot() as int) == old(self).generation_at(
                handle.slot() as int,
            ),
            final(self).same_except(old(self), handle.slot() as int),
    {
        self.try_take(handle).unwrap()
    }

    /// Puts a taken value back into the slot its ticket names.
    pub fn put_back(&mut self, ticket: Ticket<T>, value: T)
        requires
            old(self).wf(),
            ticket.slot() < old(self).count(),
            !old(self).free_list().contains(ticket.slot() as u32),
        ensures
            final(self).wf(),
            final(self).count() == old(self).count(),
            final(self).free_list() == old(self).free_list(),
            final(self).value_at(ticket.slot() as int) == Some(value),
            final(self).generation_at(ticket.slot() as int) == old(self).generation_at(
                ticket.slot() as int,
            ),
            final(self).same_except(old(self), ticket.slot() as int),
    {
        let i = ticket.index as usize;
        let generation = self.entries[i].generation;
        self.entries.set(i, Entry { generation, value: Some(value) });
    }

    /// The occupied slots in order, each with the handle that reaches it and
    /// its value.
    pub fn iter(&self) -> (r: Vec<(Handle<T>, &T)>)
        requires
            self.wf(),
        ensures
            r@.len() == self.live_slots().len(),
            forall|k: int|
                0 <= k < r@.len() ==> {
                    let (h, v) = #[trigger] r@[k];
                    &&& h.slot() == self.live_slots()[k]
                    &&& h.generation() == self.generation_at(self.live_slots()[k])
                    &&& self.value_at(self.live_slots()[k]) == Some(*v)
                },
    {
        let mut out: Vec<(Handle<T>, &T)> = Vec::new();
        let mut i: usize = 0;
        while i < self.entries.len()
            invariant
                self.wf(),
                i <= self.count(),
                out@.len() == self.live_upto(i as nat).len(),
                forall|k: int|
                    0 <= k < out@.len() ==> {
                        let (h, v) = #[trigger] out@[k];
                        &&& h.slot() == self.live_upto(i as nat)[k]
                        &&& h.generation() == self.generation_at(self.live_upto(i as nat)[k])
                        &&& self.value_at(self.live_upto(i as nat)[k]) == Some(*v)
                    },
            decreases self.count() - i,
        {
            match self.entries[i].value.as_ref() {
                Some(v) => {
                    out.push((Handle::new(i as u32, self.entries[i].generation), v));
                },
                None => {},
            }
            i += 1;
        }
        out
    }

    /// The values of the occupied slots, in slot order.
    pub fn iter_values(&self) -> (r: Vec<&T>)
        requires
            self.wf(),
        ensures
            r@.len() == self.live_slots().len(),
            forall|k: int|
                0 <= k < r@.len() ==> self.value_at(self.live_slots()[k]) == Some(*#[trigger] r@[k]),
    {
        let mut out: Vec<&T> = Vec::new();
        let mut i: usize = 0;
        while i < self.entries.len()
            invariant
                self.wf(),
                i <= self.count(),
                out@.len() == self.live_upto(i as nat).len(),
                forall|k: int|
                    0 <= k < out@.len() ==> self.value_at(self.live_upto(i as nat)[k]) == Some(
                        *#[trigger] out@[k],
                    ),
            decreases self.count() - i,
        {
            match self.entries[i].value.as_ref() {
                Some(v) => {
                    out.push(v);
                },
                None => {},
            }
            i += 1;
        }
        out
    }

    /// The occupied slots in order, each with the handle that reaches it and
    /// a mutable reference to its value; what is written through them is what
    /// the slots hold afterwards.
    pub fn iter_mut(&mut self) -> (r: Vec<(Handle<T>, &mut T)>)
        requires
            old(self).wf(),
        ensures
            r@.len() == old(self).live_slots().len(),
            forall|k: int|
                0 <= k < r@.len() ==> {
                    let (h, v) = #[trigger] r@[k];
                    &&& h.slot() == old(self).live_slots()[k]
                    &&& h.generation() == old(self).generation_at(old(self).live_slots()[k])
                    &&& old(self).value_at(old(self).live_slots()[k]) == Some(*v)
                    &&& final(self).value_at(old(self).live_slots()[k]) == Some(*final(v))
                },
            final(self).wf(),
            final(self).count() == old(self).count(),
            final(self).free_list() == old(self).free_list(),
            forall|k: int|
                0 <= k < old(self).count() ==> #[trigger] final(self).generation_at(k)
                    == old(self).generation_at(k) && (old(self).value_at(k) is None
                    ==> final(self).value_at(k) is None),
    {
        let ghost entries = self.entries@;
        let ghost fin = *final(self);
        let n = self.entries.len();
        let mut out: Vec<(Handle<T>, &mut T)> = Vec::new();
        let mut rest: &mut [Entry<T>] = self.entries.as_mut_slice();
        let mut i: usize = 0;
        while rest.len() > 0
            invariant
                i <= entries.len(),
                n == entries.len(),
                old(self).wf(),
                rest@ == entries.subrange(i as int, entries.len() as int),
                entries == old(self).entries@,
                fin.entries@.len() == i + final(rest)@.len(),
                forall|k: int|
                    0 <= k < i ==> (#[trigger] fin.entries@[k]).generation == entries[k].generation
                        && (entries[k].value is None ==> fin.entries@[k].value is None),
                forall|j: int|
                    0 <= j < final(rest)@.len() ==> #[trigger] final(rest)@[j]
                        == fin.entries@[i + j],
                out@.len() == old(self).live_upto(i as nat).len(),
                forall|k: int|
                    0 <= k < out@.len() ==> {
                        let (h, v) = #[trigger] out@[k];
                        &&& h.slot() == old(self).live_upto(i as nat)[k]
                        &&& h.generation() == old(self).generation_at(
                            old(self).live_upto(i as nat)[k],
                        )
                        &&& old(self).value_at(old(self).live_upto(i as nat)[k]) == Some(*v)
                        &&& fin.value_at(old(self).live_upto(i as nat)[k]) == Some(*final(v))
                    },
            decreases rest@.len(),
        {
            let ghost rest_fin = final(rest)@;
            let ghost out_before = out@;
            let (first, tail) = rest.split_at_mut(1);
            let ghost first_fin = final(first)@;
            let ghost tail_fin = final(tail)@;
            let e = first.first_mut().unwrap();
            let ghost e_fin = *final(e);
            let generation = e.generation;
            proof {
                assert(rest_fin =~= first_fin + tail_fin);
                assert(first_fin[0] == e_fin);
                assert(fin.entries@[i as int] == rest_fin[0]);
                assert forall|j: int| 0 <= j < tail_fin.len() implies #[trigger] tail_fin[j]
                    == fin.entries@[i + 1 + j] by {
                    assert(tail_fin[j] == rest_fin[j + 1]);
                }
            }
            match e.value.as_mut() {
                Some(v) => {
                    proof {
                        assert(e_fin.value == Some(*final(v)));
                    }
                    out.push((Handle::new(i as u32, generation), v));
                    proof {
                        assert forall|k: int| 0 <= k < out@.len() implies {
                            let (h, w) = #[trigger] out@[k];
                            &&& h.slot() == old(self).live_upto((i + 1) as nat)[k]
                            &&& h.generation() == old(self).generation_at(
                                old(self).live_upto((i + 1) as nat)[k],
                            )
                            &&& old(self).value_at(old(self).live_upto((i + 1) as nat)[k]) == Some(*w)
                            &&& fin.value_at(old(self).live_upto((i + 1) as nat)[k]) == Some(*final(w))
                        } by {
                            if k < out_before.len() {
                                assert(out@[k] == out_before[k]);
                            }
                        }
                    }
                },
                None => {
                    proof {
                        assert(e_fin.value is None);
                    }
                },
            }
            proof {
                assert(e_fin.generation == entries[i as int].generation);
            }
            rest = tail;
            i += 1;
        }
        // an empty slice comes back empty
        let _ = rest.first_mut();
        proof {
            assert(fin.entries@.len() == n);
            assert(fin.free_indices@ == old(self).free_indices@);
        }
        out
    }

    /// Mutable references to the values of the occupied slots, in slot order;
    /// what is written through them is what the slots hold afterwards.
    pub fn iter_values_mut(&mut self) -> (r: Vec<&mut T>)
        requires
            old(self).wf(),
        ensures
            r@.len() == old(self).live_slots().len(),
            forall|k: int|
                0 <= k < r@.len() ==> old(self).value_at(old(self).live_slots()[k]) == Some(
                    *#[trigger] r@[k],
                ),
            forall|k: int|
                0 <= k < r@.len() ==> final(self).value_at(old(self).live_slots()[k]) == Some(
                    *final(#[trigger] r@[k]),
                ),
            final(self).wf(),
            final(self).count() == old(self).count(),
            final(self).free_list() == old(self).free_list(),
            forall|k: int|
                0 <= k < old(self).count() ==> #[trigger] final(self).generation_at(k)
                    == old(self).generation_at(k) && (old(self).value_at(k) is None
                    ==> final(self).value_at(k) is None),
    {
        let ghost entries = self.entries@;
        let ghost fin = *final(self);
        let n = self.entries.len();
        let mut out: Vec<&mut T> = Vec::new();
        let mut rest: &mut [Entry<T>] = self.entries.as_mut_slice();
        let mut i: usize = 0;
        while rest.len() > 0
            invariant
                i <= entries.len(),
                n == entries.len(),
                rest@ == entries.subrange(i as int, entries.len() as int),
                entries == old(self).entries@,
                fin.entries@.len() == i + final(rest)@.len(),
                forall|k: int|
                    0 <= k < i ==> (#[trigger] fin.entries@[k]).generation == entries[k].generation
                        && (entries[k].value is None ==> fin.entries@[k].value is None),
                forall|j: int|
                    0 <= j < final(rest)@.len() ==> #[trigger] final(rest)@[j]
                        == fin.entries@[i + j],
                out@.len() == old(self).live_upto(i as nat).len(),
                forall|k: int|
                    0 <= k < out@.len() ==> old(self).value_at(old(self).live_upto(i as nat)[k])
                        == Some(*#[trigger] out@[k]),
                forall|k: int|
                    0 <= k < out@.len() ==> fin.value_at(old(self).live_upto(i as nat)[k])
                        == Some(*final(#[trigger] out@[k])),
            decreases rest@.len(),
        {
            let ghost rest_fin = final(rest)@;
            let ghost live = old(self).live_upto(i as nat);
            let ghost out_before = out@;
            let (first, tail) = rest.split_at_mut(1);
            let ghost first_fin = final(first)@;
            let ghost tail_fin = final(tail)@;
            let e = first.first_mut().unwrap();
            let ghost e_fin = *final(e);
            proof {
                assert(rest_fin =~= first_fin + tail_fin);
                assert(first_fin[0] == e_fin);
                assert(fin.entries@[i as int] == rest_fin[0]);
                assert forall|j: int| 0 <= j < tail_fin.len() implies #[trigger] tail_fin[j]
                    == fin.entries@[i + 1 + j] by {
                    assert(tail_fin[j] == rest_fin[j + 1]);
                }
            }
            match e.value.as_mut() {
                Some(v) => {
                    proof {
                        assert(e_fin.value == Some(*final(v)));
                    }
                    out.push(v);
                    proof {
                        assert forall|k: int|
                            0 <= k < out@.len() implies fin.value_at(
                                old(self).live_upto((i + 1) as nat)[k],
                            ) == Some(*final(#[trigger] out@[k])) by {
                            if k < out_before.len() {
                                assert(out@[k] == out_before[k]);
                            }
                        }
                    }
                },
                None => {
                    proof {
                        assert(e_fin.value is None);
                    }
                },
            }
            proof {
                assert(e_fin.generation == entries[i as int].generation);
            }
            rest = tail;
            i += 1;
        }
        // an empty slice comes back empty
        let _ = rest.first_mut();
        proof {
            assert(fin.entries@.len() == n);
            assert(fin.free_indices@ == old(self).free_indices@);
        }
        out
    }

    /// Mutable access to the value `handle` reaches, if any.
    pub fn try_get_mut(&mut self, handle: Handle<T>) -> (r: Option<&mut T>)
        requires
            old(self).wf(),
        ensures
            old(self).lookup(handle) is None ==> r is None && *final(self) == *old(self),
            old(self).lookup(handle) is Some ==> r is Some && *r->0 == old(self).lookup(handle)->0,
            old(self).lookup(handle) is Some ==> {
                &&& final(self).wf()
                &&& final(self).count() == old(self).count()
                &&& final(self).free_list() == old(self).free_list()
                &&& final(self).value_at(handle.slot() as int) == Some(*final(r->0))
                &&& final(self).generation_at(handle.slot() as int) == old(self).generation_at(
                    handle.slot() as int,
                )
                &&& final(self).same_except(old(self), handle.slot() as int)
            },
    {
        let i = handle.index as usize;
        if i < self.entries.len() && self.entries[i].generation == handle.generation
            && self.entries[i].value.is_some() {
            self.entries[i].value.as_mut()
        } else {
            None
        }
    }

    /// Mutable access to the value `handle` reaches; the handle must reach one.
    pub fn get_mut(&mut self, handle: Handle<T>) -> (r: &mut T)
        requires
            old(self).wf(),
            old(self).lookup(handle) is Some,
        ensures
            *r == old(self).lookup(handle)->0,
            final(self).wf(),
            final(self).count() == old(self).count(),
            final(self).free_list() == old(self).free_list(),
            final(self).value_at(handle.slot() as int) == Some(*final(r)),
            final(self).generation_at(handle.slot() as int) == old(self).generation_at(
                handle.slot() as int,
            ),
            final(self).same_except(old(self), handle.slot() as int),
    {
        self.try_get_mut(handle).unwrap()
    }

    /// Number of slots, occupied or vacant.
    pub fn len(&self) -> (r: u32)
        requires
            self.wf(),
        ensures
            r == self.count(),
    {
        self.entries.len() as u32
    }

    /// The handle that refers to slot `index` as it is now, or the dangling
    /// handle when there is no such slot.
    pub fn handle_from_index(&self, index: u32) -> (r: Handle<T>)
        ensures
            index < self.count() ==> r.slot() == index && r.generation() == self.generation_at(
                index as int,
            ),
            index >= self.count() ==> r.slot() == 0 && r.generation() == u32::MAX,
    {
        let i = index as usize;
        if i < self.entries.len() {
            Handle::new(index, self.entries[i].generation)
        } else {
            Handle::dangling()
        }
    }
}

} // verus!
