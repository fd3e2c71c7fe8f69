//! A ring of wake handles.
//!
//! [`Ring`] is what a registry is to its contracts, with the laws that hold
//! of it. [`Inner`] is the registry itself: a fixed array of slots and a
//! count of registrations. It allocates nothing.

use core::task::Waker;
use vstd::prelude::*;

verus! {

/// `core::task::Waker`, the handle that makes a waiting task runnable. It is
/// carried through as an opaque value.
#[verifier::external_type_specification]
#[verifier::external_body]
pub struct ExWaker(core::task::Waker);

/// `Waker::clone` hands out another handle for the same task. Nothing is
/// claimed of it here; callers learn that the result is a clone of the
/// argument.
pub assume_specification[ <Waker as Clone>::clone ](w: &Waker) -> (r: Waker)
;

/// `Waker::wake` makes the task runnable and uses the handle up. It returns
/// nothing, and nothing is claimed of it.
pub assume_specification[ Waker::wake ](w: Waker)
;

/// `Waker::will_wake` tells, as well as it can, whether two handles wake the
/// same task. Nothing is claimed of its answer.
pub assume_specification[ Waker::will_wake ](w: &Waker, other: &Waker) -> (r: bool)
;

/// The number of handles that a registry holds at once.
pub const POLL_SET_CAPACITY: usize = 64;

/// The number of handles held when the count of registrations is `cursor`:
/// the count, or the capacity once the count has reached it.
pub open spec fn held(cursor: nat) -> nat {
    if cursor < POLL_SET_CAPACITY {
        cursor
    } else {
        POLL_SET_CAPACITY as nat
    }
}

/// What a registry is, to its contracts: the handles it holds, by slot; the
/// count of registrations, which goes back to the capacity when it reaches
/// twice the capacity, so that a full registry stays full; and the handles
/// that it has woken so far, in order.
pub struct Ring {
    pub live: Seq<Waker>,
    pub cursor: nat,
    pub woken: Seq<Waker>,
}

impl Ring {
    /// A registry that holds nothing and has woken nothing.
    pub open spec fn empty() -> Ring {
        Ring { live: Seq::empty(), cursor: 0, woken: Seq::empty() }
    }

    /// The handles held are as many as the count says, the capacity at most.
    pub open spec fn wf(self) -> bool {
        &&& self.cursor < 2 * POLL_SET_CAPACITY
        &&& self.live.len() == held(self.cursor)
    }

    /// The slot that the next registration lands in: the count, less the
    /// capacity once the count has reached it.
    pub open spec fn slot(self) -> int {
        if self.cursor < POLL_SET_CAPACITY {
            self.cursor as int
        } else {
            self.cursor - POLL_SET_CAPACITY
        }
    }

    /// The count after the next registration: one more, and the capacity
    /// again in place of twice the capacity. The slot is the same for both.
    pub open spec fn next_cursor(self) -> nat {
        if self.cursor + 1 == 2 * POLL_SET_CAPACITY {
            POLL_SET_CAPACITY as nat
        } else {
            self.cursor + 1
        }
    }

    /// Whether the next registration finds its slot taken.
    pub open spec fn evicts(self) -> bool {
        self.cursor >= POLL_SET_CAPACITY
    }

    /// The registry after `handle` is registered. Where the slot is taken, the
    /// handle in it leaves, and is woken unless it is `redundant`: known to
    /// wake the task that `handle` wakes. No handle leaves in another way.
    pub open spec fn register(self, handle: Waker, redundant: bool) -> Ring {
        Ring {
            live: if self.evicts() {
                self.live.update(self.slot(), handle)
            } else {
                self.live.push(handle)
            },
            cursor: self.next_cursor(),
            woken: if self.evicts() && !redundant {
                self.woken.push(self.live[self.slot()])
            } else {
                self.woken
            },
        }
    }

    /// The registry after all that it holds is woken, slot by slot.
    pub open spec fn drain(self) -> Ring {
        Ring { live: Seq::empty(), cursor: 0, woken: self.woken + self.live }
    }

    /// The registry after each of `handles` is registered, in order, where
    /// `redundant[i]` is what the `i`-th registration learns of the handle
    /// that it pushes out, if it pushes one out.
    pub open spec fn register_each(self, handles: Seq<Waker>, redundant: Seq<bool>) -> Ring
        decreases handles.len(),
    {
        if handles.len() == 0 {
            self
        } else {
            self.register_each(handles.drop_last(), redundant.drop_last()).register(
                handles.last(),
                redundant.last(),
            )
        }
    }
}

/// A registration keeps a registry well-formed. It wakes one handle at most,
/// and only one that it pushes out; it wakes none that is redundant. It never
/// adds more than one to the handles held or woken: a wake-up never comes
/// without a registration of its own.
pub proof fn lemma_register(ring: Ring, handle: Waker, redundant: bool)
    requires
        ring.wf(),
    ensures
        ({
            let next = ring.register(handle, redundant);
            &&& next.wf()
            &&& !ring.evicts() || redundant ==> next.woken == ring.woken
            &&& ring.evicts() && !redundant ==> next.woken == ring.woken.push(
                ring.live[ring.slot()],
            )
            &&& next.woken.len() + next.live.len() <= ring.woken.len() + ring.live.len() + 1
        }),
{
}

/// No wake-up is lost. When handles are registered with an empty registry,
/// not more of them than it holds at once, then none is woken before the
/// registry is woken; waking it wakes exactly these handles, each once and in
/// the order in which they came; and waking it once more wakes none.
pub proof fn lemma_registered_are_woken_once(handles: Seq<Waker>, redundant: Seq<bool>)
    requires
        handles.len() <= POLL_SET_CAPACITY,
        redundant.len() == handles.len(),
    ensures
        ({
            let held = Ring::empty().register_each(handles, redundant);
            &&& held.wf()
            &&& held.cursor == handles.len()
            &&& held.live == handles
            &&& held.woken == Seq::<Waker>::empty()
            &&& held.drain().woken == handles
            &&& held.drain().live.len() == 0
            &&& held.drain().drain().woken == handles
        }),
    decreases handles.len(),
{
    if handles.len() > 0 {
        lemma_registered_are_woken_once(handles.drop_last(), redundant.drop_last());
    }
}

/// No handle is lost, however many are registered. When handles are
/// registered with an empty registry, and none that is pushed out is
/// redundant, then each of them has been woken exactly once by the time the
/// registry has been woken: the handles woken are the handles registered, in
/// some order.
pub proof fn lemma_each_is_woken_once(handles: Seq<Waker>, redundant: Seq<bool>)
    requires
        redundant.len() == handles.len(),
        forall|i: int| 0 <= i < redundant.len() ==> !redundant[i],
    ensures
        ({
            let held = Ring::empty().register_each(handles, redundant);
            &&& held.wf()
            &&& held.live.len() == self::held(handles.len())
            &&& held.drain().woken.to_multiset() == handles.to_multiset()
        }),
    decreases handles.len(),
{
    broadcast use vstd::multiset::group_multiset_axioms;

    let held = Ring::empty().register_each(handles, redundant);
    if handles.len() == 0 {
        assert(held.drain().woken =~= handles);
    } else {
        let handle = handles.last();
        lemma_each_is_woken_once(handles.drop_last(), redundant.drop_last());
        let before = Ring::empty().register_each(handles.drop_last(), redundant.drop_last());
        assert(handles.drop_last().push(handle) =~= handles);
        vstd::seq_lib::to_multiset_build(handles.drop_last(), handle);
        vstd::seq_lib::lemma_multiset_commutative(before.woken, before.live);
        vstd::seq_lib::lemma_multiset_commutative(held.woken, held.live);
        if before.evicts() {
            let left = before.live[before.slot()];
            vstd::seq_lib::to_multiset_build(before.woken, left);
            vstd::seq_lib::to_multiset_update(before.live, before.slot(), handle);
            vstd::seq_lib::to_multiset_contains(before.live, left);
        } else {
            vstd::seq_lib::to_multiset_build(before.live, handle);
        }
    }
}

/// Wake-ups are not multiplied. When a task is registered twice in a row and
/// the registry is woken then, the wake-ups since are at most two more than
/// the handles that were held before. With an empty registry they are the two
/// handles of the task, and waking once more adds none.
pub proof fn lemma_registered_twice(
    ring: Ring,
    first: Waker,
    second: Waker,
    first_redundant: bool,
    second_redundant: bool,
)
    requires
        ring.wf(),
    ensures
        ({
            let end = ring.register(first, first_redundant).register(
                second,
                second_redundant,
            ).drain();
            &&& end.woken.len() <= ring.woken.len() + ring.live.len() + 2
            &&& ring == Ring::empty() ==> end.woken == seq![first, second] && end.drain().woken
                == end.woken
        }),
{
    lemma_register(ring, first, first_redundant);
    lemma_register(ring.register(first, first_redundant), second, second_redundant);
}

/// Waking a registry wakes every handle that it holds, once, and leaves none
/// held, whatever was registered before.
pub proof fn lemma_drain(ring: Ring)
    requires
        ring.wf(),
    ensures
        ring.drain().wf(),
        ring.drain().woken == ring.woken + ring.live,
        ring.drain().woken.len() == ring.woken.len() + ring.live.len(),
        ring.drain().live.len() == 0,
        ring.drain().drain().woken == ring.drain().woken,
{
}

/// The ring of handles behind a `PollSet`.
///
/// It keeps the handles in an array of `POLL_SET_CAPACITY` slots and counts
/// the registrations. For its contracts it also keeps, as a ghost, the
/// handles that it has woken.
pub struct Inner {
    entries: [Option<Waker>; POLL_SET_CAPACITY],
    cursor: usize,
    woken: Ghost<Seq<Waker>>,
}

/// An array of slots with no handle in any. It has `POLL_SET_CAPACITY` slots.
fn empty_slots() -> (slots: [Option<Waker>; POLL_SET_CAPACITY])
    ensures
        forall|i: int| 0 <= i < POLL_SET_CAPACITY ==> slots@[i] is None,
{
    [
        None, None, None, None, None, None, None, None,
        None, None, None, None, None, None, None, None,
        None, None, None, None, None, None, None, None,
        None, None, None, None, None, None, None, None,
        None, None, None, None, None, None, None, None,
        None, None, None, None, None, None, None, None,
        None, None, None, None, None, None, None, None,
        None, None, None, None, None, None, None, None,
    ]
}

impl Inner {
    /// The count is below twice the capacity, and every slot that counts as
    /// held holds a handle.
    #[verifier::type_invariant]
    spec fn inv(&self) -> bool {
        &&& self.cursor < 2 * POLL_SET_CAPACITY
        &&& forall|i: int| 0 <= i < held(self.cursor as nat) ==> self.entries@[i] is Some
    }

    /// The registry as its contracts see it.
    pub closed spec fn view(&self) -> Ring {
        Ring {
            live: Seq::new(held(self.cursor as nat), |i: int| self.entries@[i].unwrap()),
            cursor: self.cursor as nat,
            woken: self.woken@,
        }
    }

    /// Creates a registry that holds nothing.
    pub fn new() -> (r: Self)
        ensures
            r@ == Ring::empty(),
    {
        let r = Inner { entries: empty_slots(), cursor: 0, woken: Ghost(Seq::empty()) };
        assert(r@.live =~= Seq::<Waker>::empty());
        r
    }

    /// Returns the number of handles held.
    pub fn len(&self) -> (n: usize)
        ensures
            n == self@.live.len(),
            n <= POLL_SET_CAPACITY,
    {
        if self.cursor < POLL_SET_CAPACITY {
            self.cursor
        } else {
            POLL_SET_CAPACITY
        }
    }

    /// Returns whether no handle is held.
    pub fn is_empty(&self) -> (b: bool)
        ensures
            b <==> self@.live.len() == 0,
    {
        self.cursor == 0
    }

    /// Returns the handle that the next registration pushes out, if it pushes
    /// one out.
    pub fn stale(&self) -> (r: Option<&Waker>)
        ensures
            r is Some <==> self@.evicts(),
            r matches Some(old) ==> *old == self@.live[self@.slot()],
    {
        proof {
            use_type_invariant(self);
        }
        if self.cursor >= POLL_SET_CAPACITY {
            self.entries[self.cursor % POLL_SET_CAPACITY].as_ref()
        } else {
            None
        }
    }

    /// Registers a clone of `waker`, given what the handle that it pushes out
    /// has answered: `redundant` says that this handle wakes the task of
    /// `waker`. The handle pushed out is woken unless it is redundant.
    pub fn register_with(&mut self, waker: &Waker, redundant: bool)
        ensures
            final(self)@.wf(),
            exists|handle: Waker|
                cloned(*waker, handle) && final(self)@ == #[trigger] old(self)@.register(
                    handle,
                    redundant,
                ),
    {
        proof {
            use_type_invariant(&*self);
        }
        let ghost pre = self@;
        let mut taken = Inner::new();
        core::mem::swap(self, &mut taken);
        let Inner { entries, cursor, woken } = taken;
        let mut entries = entries;
        let ghost mut log = woken@;
        let slot = cursor % POLL_SET_CAPACITY;
        if cursor >= POLL_SET_CAPACITY {
            let mut left = None;
            core::mem::swap(&mut entries[slot], &mut left);
            if let Some(old) = left {
                let ghost was = old;
                if !redundant {
                    old.wake();
                    proof {
                        log = log.push(was);
                    }
                }
            }
        }
        let handle = waker.clone();
        let ghost stored = handle;
        entries[slot] = Some(handle);
        let next = if cursor + 1 == POLL_SET_CAPACITY * 2 {
            POLL_SET_CAPACITY
        } else {
            cursor + 1
        };
        *self = Inner { entries, cursor: next, woken: Ghost(log) };
        proof {
            let after = pre.register(stored, redundant);
            assert(self@.live =~= after.live);
        }
    }

    /// Registers a clone of `waker`.
    ///
    /// Where the slot is taken, the handle in it is asked whether it wakes
    /// the task of `waker`, and is woken if it does not say so.
    pub fn register(&mut self, waker: &Waker)
        ensures
            final(self)@.wf(),
            exists|handle: Waker, redundant: bool|
                cloned(*waker, handle) && final(self)@ == #[trigger] old(self)@.register(
                    handle,
                    redundant,
                ),
    {
        let redundant = match self.stale() {
            Some(old) => old.will_wake(waker),
            None => false,
        };
        self.register_with(waker, redundant);
    }

    /// Takes everything out of the ring: returns a ring that holds what this
    /// one held, and leaves this one holding nothing. A ring that holds
    /// nothing is left as it is.
    pub fn take(&mut self) -> (taken: Inner)
        ensures
            taken@.wf(),
            taken@.live == old(self)@.live,
            final(self)@.live.len() == 0,
            if old(self)@.live.len() == 0 {
                final(self)@ == old(self)@ && taken@ == Ring::empty()
            } else {
                final(self)@ == Ring::empty() && taken@ == old(self)@
            },
    {
        proof {
            use_type_invariant(&*self);
        }
        let mut taken = Inner::new();
        if self.is_empty() {
            return taken;
        }
        core::mem::swap(self, &mut taken);
        taken
    }

    /// Wakes every handle held, slot by slot, and holds nothing afterwards.
    /// Returns the number of handles woken.
    pub fn wake_all(&mut self) -> (n: usize)
        ensures
            final(self)@ == old(self)@.drain(),
            n == old(self)@.live.len(),
    {
        proof {
            use_type_invariant(&*self);
        }
        let ghost pre = self@;
        let mut taken = Inner::new();
        core::mem::swap(self, &mut taken);
        let n = taken.len();
        let Inner { entries, cursor: _, woken } = taken;
        let mut entries = entries;
        let ghost before = entries@;
        let ghost mut log = woken@;
        let mut i: usize = 0;
        while i < n
            invariant
                i <= n,
                n == pre.live.len(),
                n <= POLL_SET_CAPACITY,
                before.len() == POLL_SET_CAPACITY,
                forall|j: int| 0 <= j < n ==> pre.live[j] == (#[trigger] before[j]).unwrap(),
                forall|j: int| i <= j < n ==> entries@[j] == before[j] && before[j] is Some,
                log == pre.woken + pre.live.take(i as int),
            decreases n - i,
        {
            let mut left = None;
            core::mem::swap(&mut entries[i], &mut left);
            if let Some(handle) = left {
                let ghost was = handle;
                handle.wake();
                proof {
                    assert(before[i as int] == Some(was));
                    log = log.push(was);
                }
            }
            i += 1;
        }
        proof {
            assert(pre.live.take(n as int) =~= pre.live);
        }
        *self = Inner { entries, cursor: 0, woken: Ghost(log) };
        proof {
            assert(self@.live =~= Seq::<Waker>::empty());
        }
        n
    }
}

} // verus!
