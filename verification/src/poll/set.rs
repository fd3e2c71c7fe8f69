//! The registry behind a lock, for use from many tasks at once.

use super::ring::{Inner, Ring, POLL_SET_CAPACITY};
use core::task::Waker;
use vstd::prelude::*;

verus! {

/// `spin::relax::Spin`, the way a `spin` lock waits. It only stands in the
/// lock's type.
#[verifier::external_type_specification]
#[verifier::external_body]
pub struct ExSpin(spin::relax::Spin);

/// `spin::mutex::Mutex`, a lock around a value. What it holds at a given time
/// depends on what other threads do, so nothing is said of it.
#[verifier::external_type_specification]
#[verifier::external_body]
#[verifier::reject_recursive_types(T)]
#[verifier::reject_recursive_types(R)]
pub struct ExMutex<T: ?Sized, R>(spin::mutex::Mutex<T, R>);

/// `spin::mutex::MutexGuard`, the right to use the value in a lock. The lock
/// is released when the guard goes.
#[verifier::external_type_specification]
#[verifier::external_body]
#[verifier::reject_recursive_types(T)]
#[verifier::reject_recursive_types(R)]
pub struct ExMutexGuard<'a, T: 'a + ?Sized, R>(spin::mutex::MutexGuard<'a, T, R>);

/// `Mutex::new`: a lock that holds `ring`.
#[verifier::external_body]
fn lock_around(ring: Inner) -> (lock: spin::mutex::Mutex<Inner>) {
    spin::mutex::Mutex::new(ring)
}

/// `Mutex::lock`: waits until no other guard is out, and hands out the guard.
/// It does not return while this thread holds a guard of the same lock.
#[verifier::external_body]
fn acquire(lock: &spin::mutex::Mutex<Inner>) -> (guard: spin::mutex::MutexGuard<'_, Inner>) {
    lock.lock()
}

/// `DerefMut::deref_mut` of the guard: the value in the lock. Which value
/// that is depends on what was done under earlier guards; it is one that the
/// functions of this module have put there.
#[verifier::external_body]
fn guarded<'a, 'b>(guard: &'a mut spin::mutex::MutexGuard<'b, Inner>) -> (ring: &'a mut Inner) {
    &mut **guard
}

/// A data structure for waking up tasks that are waiting for I/O events.
///
/// It is a lock around a ring of handles. Every operation takes the lock for
/// a few steps and never waits for anything else. The handles' own code runs
/// under the lock when a registration pushes a handle out; it must not come
/// back to the same `PollSet`.
///
/// A `PollSet` that is dropped wakes nothing: call `wake` before, so that no
/// task is left waiting.
pub struct PollSet {
    ring: spin::mutex::Mutex<Inner>,
}

impl PollSet {
    /// This set's lock was made around a ring that held nothing.
    pub closed spec fn made_empty(&self) -> bool {
        exists|ring: Inner|
            ring@ == Ring::empty() && #[trigger] call_ensures(lock_around, (ring,), self.ring)
    }

    /// `lent` is a ring that this set's lock has handed out: a guard that the
    /// lock gave has given access to it. What a lock hands out depends on
    /// what was done under its earlier guards, by this thread and by others.
    pub closed spec fn lends(&self, lent: &mut Inner) -> bool {
        exists|guard: spin::mutex::MutexGuard<Inner>, held: &mut spin::mutex::MutexGuard<Inner>|
            {
                &&& #[trigger] call_ensures(acquire, (&self.ring,), guard)
                &&& *held == guard
                &&& #[trigger] call_ensures(guarded, (held,), lent)
            }
    }

    /// Creates a registry that holds nothing.
    pub fn new() -> (set: Self)
        ensures
            set.made_empty(),
    {
        let ring = Inner::new();
        let ghost first = ring;
        let set = PollSet { ring: lock_around(ring) };
        assert(call_ensures(lock_around, (first,), set.ring));
        set
    }

    /// Registers a clone of `waker`, to be woken by the next `wake`, or
    /// earlier when later registrations push it out.
    ///
    /// The clone is registered with the ring that the lock hands out, as
    /// `Ring::register` says, whatever the handle that it pushes out answers.
    pub fn register(&self, waker: &Waker)
        ensures
            exists|lent: &mut Inner, handle: Waker, redundant: bool|
                {
                    &&& #[trigger] self.lends(lent)
                    &&& cloned(*waker, handle)
                    &&& (*final(lent))@ == #[trigger] (*lent)@.register(handle, redundant)
                },
    {
        let mut guard = acquire(&self.ring);
        let ghost given = guard;
        let ring = guarded(&mut guard);
        let ghost lent = ring;
        proof {
            assert(call_ensures(acquire, (&self.ring,), given));
            assert(self.lends(lent));
        }
        ring.register(waker);
    }

    /// Takes all handles out of the registry and wakes each of them, outside
    /// the lock. Returns their number, which is zero when nothing was
    /// registered.
    ///
    /// The handles are those in the ring that the lock hands out. That ring
    /// is left holding none, and each of the handles is woken once, slot by
    /// slot, as `Inner::wake_all` does it.
    pub fn wake(&self) -> (n: usize)
        ensures
            n <= POLL_SET_CAPACITY,
            exists|lent: &mut Inner, taken: &mut Inner|
                {
                    &&& #[trigger] self.lends(lent)
                    &&& n == (*lent)@.live.len()
                    &&& (*final(lent))@.live.len() == 0
                    &&& (*taken)@.live == (*lent)@.live
                    &&& #[trigger] call_ensures(Inner::wake_all, (taken,), n)
                    &&& (*final(taken))@.woken == (*taken)@.woken + (*lent)@.live
                },
    {
        let ghost lent;
        let mut taken = {
            let mut guard = acquire(&self.ring);
            let ghost given = guard;
            let ring = guarded(&mut guard);
            proof {
                lent = ring;
                assert(call_ensures(acquire, (&self.ring,), given));
                assert(self.lends(lent));
            }
            ring.take()
        };
        taken.wake_all()
    }
}

impl Default for PollSet {
    /// Creates a registry that holds nothing.
    fn default() -> (set: Self)
        ensures
            set.made_empty(),
    {
        Self::new()
    }
}

} // verus!
