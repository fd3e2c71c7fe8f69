//! What a series of writes to a buffered writer comes to.
//!
//! A [`Run`] follows a writer through writes that all succeed: it keeps the
//! bytes buffered, the bytes passed on to the sink, the bytes taken in, and
//! the number of times that buffered bytes were passed on. Its steps are
//! written with the functions that the contract of `BufWriter::write` is
//! written with.

use super::writer::{buffered_after, passes_on, taken};
use super::DEFAULT_BUF_SIZE;
use vstd::prelude::*;

verus! {

/// The state of a series of writes.
pub struct Run {
    /// The bytes that the writer holds.
    pub buffered: Seq<u8>,
    /// The bytes that the sink was handed, in order.
    pub sent: Seq<u8>,
    /// The bytes that the writes took in, in order.
    pub taken: Seq<u8>,
    /// How many times buffered bytes were passed on to the sink.
    pub flushes: nat,
}

impl Run {
    /// A new writer: nothing buffered, nothing passed on.
    pub open spec fn start() -> Run {
        Run { buffered: Seq::empty(), sent: Seq::empty(), taken: Seq::empty(), flushes: 0 }
    }

    /// The run after a write of `bytes`.
    pub open spec fn write(self, bytes: Seq<u8>) -> Run {
        let n = taken(bytes.len());
        if passes_on(self.buffered.len(), bytes.len()) {
            Run {
                buffered: buffered_after(self.buffered, bytes),
                sent: self.sent + self.buffered,
                taken: self.taken + bytes.take(n as int),
                flushes: self.flushes + 1,
            }
        } else {
            Run {
                buffered: buffered_after(self.buffered, bytes),
                sent: self.sent,
                taken: self.taken + bytes.take(n as int),
                flushes: self.flushes,
            }
        }
    }

    /// The run after a write of each of `pieces`, in order.
    pub open spec fn write_each(self, pieces: Seq<Seq<u8>>) -> Run
        decreases pieces.len(),
    {
        if pieces.len() == 0 {
            self
        } else {
            self.write_each(pieces.drop_last()).write(pieces.last())
        }
    }

    /// The room that the flushes left unused: a flush passes on a whole
    /// buffer at most.
    pub open spec fn unused(self) -> int {
        self.flushes * DEFAULT_BUF_SIZE - self.sent.len()
    }

    /// What holds of every run from the start.
    pub open spec fn sound(self) -> bool {
        &&& self.buffered.len() <= DEFAULT_BUF_SIZE
        &&& self.sent + self.buffered == self.taken
        &&& self.unused() >= 0
        &&& self.taken.len() > 0 ==> self.buffered.len() > 0
        &&& self.taken.len() == 0 ==> self.flushes == 0
    }
}

/// A write keeps a run sound.
pub proof fn lemma_write_keeps_sound(run: Run, bytes: Seq<u8>)
    requires
        run.sound(),
    ensures
        run.write(bytes).sound(),
{
    if !passes_on(run.buffered.len(), bytes.len()) && bytes.len() <= DEFAULT_BUF_SIZE
        - run.buffered.len() {
        let next = run.write(bytes);
        assert(bytes.take(bytes.len() as int) =~= bytes);
        assert(next.sent + next.buffered =~= (run.sent + run.buffered) + bytes);
    }
}

/// Every run from the start is sound. In particular no byte is lost or
/// moved: the bytes passed on, followed by the bytes buffered, are the bytes
/// taken in; and what is buffered is what was taken in since the last flush.
pub proof fn lemma_run_is_sound(pieces: Seq<Seq<u8>>)
    ensures
        Run::start().write_each(pieces).sound(),
    decreases pieces.len(),
{
    if pieces.len() > 0 {
        lemma_run_is_sound(pieces.drop_last());
        lemma_write_keeps_sound(Run::start().write_each(pieces.drop_last()), pieces.last());
    }
}

/// The number of flushes of a run that took in `L` bytes.
///
/// It is zero when `L` is zero. Else it is at least `(L - 1) / C`, where `C`
/// is the capacity, and it is exactly that if and only if the room that the
/// flushes left unused is less than what is buffered now. So it is exactly
/// that whenever every flush found the buffer full.
pub proof fn lemma_flush_count(pieces: Seq<Seq<u8>>)
    ensures
        ({
            let run = Run::start().write_each(pieces);
            let total = run.taken.len() as int;
            let floor = (total - 1) / (DEFAULT_BUF_SIZE as int);
            &&& total == 0 ==> run.flushes == 0
            &&& total > 0 ==> run.flushes >= floor
            &&& total > 0 ==> (run.flushes == floor <==> run.unused() < run.buffered.len())
            &&& total > 0 && run.unused() == 0 ==> run.flushes == floor
        }),
{
    lemma_run_is_sound(pieces);
}

/// Whether every piece of `pieces` is `len` bytes long.
pub open spec fn all_of_len(pieces: Seq<Seq<u8>>, len: nat) -> bool {
    forall|i: int| 0 <= i < pieces.len() ==> (#[trigger] pieces[i]).len() == len
}

/// Pieces of one length that divides the capacity leave no room unused: every
/// flush finds the buffer full.
pub proof fn lemma_even_pieces_leave_nothing_unused(pieces: Seq<Seq<u8>>, len: nat)
    requires
        len > 0,
        DEFAULT_BUF_SIZE as nat % len == 0,
        all_of_len(pieces, len),
    ensures
        ({
            let run = Run::start().write_each(pieces);
            &&& run.sound()
            &&& run.unused() == 0
            &&& run.buffered.len() % len == 0
            &&& run.taken.len() == pieces.len() * len
        }),
    decreases pieces.len(),
{
    let cap = DEFAULT_BUF_SIZE as int;
    let d = len as int;
    if pieces.len() == 0 {
        lemma_run_is_sound(pieces);
        assert(0int % d == 0) by (nonlinear_arith)
            requires
                d > 0,
        ;
        assert(0 * len == 0) by (nonlinear_arith);
    } else {
        let before = pieces.drop_last();
        let bytes = pieces.last();
        assert(all_of_len(before, len)) by {
            assert forall|i: int| 0 <= i < before.len() implies (#[trigger] before[i]).len()
                == len by {
            }
        }
        lemma_even_pieces_leave_nothing_unused(before, len);
        let run = Run::start().write_each(before);
        lemma_write_keeps_sound(run, bytes);
        let held = run.buffered.len() as int;
        assert(d <= cap) by (nonlinear_arith)
            requires
                d > 0,
                cap > 0,
                cap % d == 0,
        ;
        if d <= cap - held {
            assert((held + d) % d == 0) by (nonlinear_arith)
                requires
                    d > 0,
                    held % d == 0,
            ;
        } else {
            assert(held == cap) by (nonlinear_arith)
                requires
                    d > 0,
                    0 <= held <= cap,
                    held % d == 0,
                    cap % d == 0,
                    cap - held < d,
            ;
            assert(d % d == 0) by (nonlinear_arith)
                requires
                    d > 0,
            ;
        }
        assert(pieces.len() * len == before.len() * len + len) by (nonlinear_arith)
            requires
                pieces.len() == before.len() + 1,
        ;
    }
}

/// Pieces of one length that divides the capacity, `L` bytes in all, make
/// `(L - 1) / C` flushes, where `C` is the capacity, and none when `L` is
/// zero.
pub proof fn lemma_even_pieces_flush_count(pieces: Seq<Seq<u8>>, len: nat)
    requires
        len > 0,
        DEFAULT_BUF_SIZE as nat % len == 0,
        all_of_len(pieces, len),
    ensures
        ({
            let run = Run::start().write_each(pieces);
            let total = pieces.len() * len;
            &&& run.taken.len() == total
            &&& run.flushes == if total == 0 {
                0
            } else {
                (total - 1) / (DEFAULT_BUF_SIZE as int)
            }
        }),
{
    lemma_even_pieces_leave_nothing_unused(pieces, len);
    lemma_flush_count(pieces);
}

} // verus!
