//! Byte-transfer traits, a buffered writer and a wake registry for a runtime
//! that cannot count on dynamic allocation.

use crate::error::{error_code, io_error, write_zero_error, IO_ERROR_CODE, WRITE_ZERO_CODE};
use axerrno::AxError;
use vstd::prelude::*;

pub mod buf;
pub mod buffered;
pub mod error;
pub mod impls;
pub mod poll;

pub use self::buf::{Buf, BufMut, Reader, Writer};
pub use self::buffered::BufWriter;
pub use self::poll::{IoEvents, PollSet, Pollable};

verus! {

/// What is left of `rest` after a sink has answered to a write of it: the
/// bytes behind those that it took. Where it took none, that is the
/// `WriteZero` error; where it failed, that is its error.
pub fn left_after_write<'a>(rest: &'a [u8], answer: Result<usize, AxError>) -> (r: Result<
    &'a [u8],
    AxError,
>)
    requires
        answer matches Ok(n) ==> n <= rest@.len(),
    ensures
        match answer {
            Ok(n) => if n == 0 {
                r matches Err(e) && error_code(e) == WRITE_ZERO_CODE
            } else {
                r matches Ok(tail) && tail@ == rest@.skip(n as int)
            },
            Err(e) => r matches Err(same) && same == e,
        },
{
    match answer {
        Ok(n) => {
            if n == 0 {
                Err(write_zero_error())
            } else {
                let (_, tail) = rest.split_at(n);
                Ok(tail)
            }
        },
        Err(e) => Err(e),
    }
}

/// How much of a buffer is filled after a source has answered to a read into
/// the room behind the `filled` bytes. Where it read nothing, that is the
/// `Io` error; where it failed, that is its error.
pub fn filled_after_read(filled: usize, answer: Result<usize, AxError>) -> (r: Result<
    usize,
    AxError,
>)
    requires
        answer matches Ok(n) ==> filled + n <= usize::MAX,
    ensures
        match answer {
            Ok(n) => if n == 0 {
                r matches Err(e) && error_code(e) == IO_ERROR_CODE
            } else {
                r matches Ok(sum) && sum == filled + n
            },
            Err(e) => r matches Err(same) && same == e,
        },
{
    match answer {
        Ok(n) => {
            if n == 0 {
                Err(io_error())
            } else {
                Ok(filled + n)
            }
        },
        Err(e) => Err(e),
    }
}

/// Appends to `buf` the bytes that a read has put into `probe`, as the
/// source has answered, and tells whether it read any. Where the source
/// failed, `buf` is left as it is and the answer is its error.
pub fn append_read(buf: &mut Vec<u8>, probe: &[u8], answer: Result<usize, AxError>) -> (r: Result<
    bool,
    AxError,
>)
    requires
        answer matches Ok(n) ==> n <= probe@.len(),
    ensures
        match answer {
            Ok(n) => {
                &&& r matches Ok(any) && any == (n > 0)
                &&& final(buf)@ == old(buf)@ + probe@.take(n as int)
            },
            Err(e) => {
                &&& r matches Err(same) && same == e
                &&& final(buf)@ == old(buf)@
            },
        },
{
    match answer {
        Ok(n) => {
            if n > 0 {
                let piece = vstd::slice::slice_subrange(probe, 0, n);
                buf.extend_from_slice(piece);
            }
            Ok(n > 0)
        },
        Err(e) => Err(e),
    }
}

/// A byte sink.
///
/// What a sink does with the bytes it is given is its own affair, so the
/// contract is a relation between two states of the sink: `pre.accepts(bytes,
/// post)` says that `post` is what `pre` becomes by taking in exactly `bytes`,
/// in order. Each sink says what that means for it. The relation must hold
/// between a state and itself for no bytes, and must compose.
pub trait Write: Sized {
    /// `post` is this sink after it has taken in exactly `bytes`.
    spec fn accepts(&self, bytes: Seq<u8>, post: &Self) -> bool;

    /// Taking in nothing leaves a sink as it is.
    proof fn accepts_nothing(&self)
        ensures
            self.accepts(Seq::empty(), self),
    ;

    /// Taking in `first` and then `second` is taking in `first + second`.
    proof fn accepts_in_turn(&self, first: Seq<u8>, mid: &Self, second: Seq<u8>, post: &Self)
        requires
            self.accepts(first, mid),
            mid.accepts(second, post),
        ensures
            self.accepts(first + second, post),
    ;

    /// Writes some prefix of `buf` and returns its length. After an error
    /// nothing is promised of the sink.
    fn write(&mut self, buf: &[u8]) -> (r: Result<usize, AxError>)
        ensures
            r matches Ok(n) ==> n <= buf@.len() && (*old(self)).accepts(
                buf@.take(n as int),
                &*final(self),
            ),
    ;

    /// Pushes what the sink holds back on to its destination. No byte is
    /// taken in.
    fn flush(&mut self) -> (r: Result<(), AxError>)
        ensures
            r is Ok ==> (*old(self)).accepts(Seq::empty(), &*final(self)),
    ;

    /// Writes all of `buf`, calling `write` until nothing is left. Fails with
    /// the sink's error, or with the `WriteZero` error when the sink takes
    /// nothing of a non-empty remainder.
    fn write_all(&mut self, buf: &[u8]) -> (r: Result<(), AxError>)
        ensures
            r is Ok ==> (*old(self)).accepts(buf@, &*final(self)),
            buf@.len() == 0 ==> r is Ok,
    {
        let mut rest: &[u8] = buf;
        proof {
            (*self).accepts_nothing();
            assert(buf@.take(0) =~= Seq::empty());
        }
        while rest.len() > 0
            invariant
                rest@.len() <= buf@.len(),
                rest@ == buf@.skip(buf@.len() - rest@.len()),
                (*old(self)).accepts(buf@.take(buf@.len() - rest@.len()), &*self),
            decreases rest@.len(),
        {
            let ghost before = *self;
            let ghost done = buf@.len() - rest@.len();
            let answer = self.write(rest);
            proof {
                if let Ok(n) = answer {
                    (*old(self)).accepts_in_turn(
                        buf@.take(done),
                        &before,
                        rest@.take(n as int),
                        &*self,
                    );
                    assert(buf@.take(done) + rest@.take(n as int) =~= buf@.take(done + n));
                }
            }
            match left_after_write(rest, answer) {
                Ok(tail) => {
                    rest = tail;
                },
                Err(e) => {
                    return Err(e);
                },
            }
        }
        Ok(())
    }
}

/// A sink that gathers bytes in a buffer of its own before it passes them on.
pub trait BufWrite: Write {
    /// Passes the gathered bytes on and empties the buffer. No new byte is
    /// taken in.
    fn flush_buf(&mut self) -> (r: Result<(), AxError>)
        ensures
            r is Ok ==> (*old(self)).accepts(Seq::empty(), &*final(self)),
    ;

    /// Takes in up to `len` bytes that the caller does not supply: room is set
    /// aside in the buffer, holding whatever it held.
    fn skip_some(&mut self, len: usize) -> (r: Result<(), AxError>)
        ensures
            r is Ok ==> exists|pad: Seq<u8>|
                pad.len() <= len && #[trigger] (*old(self)).accepts(pad, &*final(self)),
    ;
}

/// A byte source.
///
/// As for [`Write`], the contract is a relation between two states of the
/// source: `pre.yields(bytes, post)` says that `post` is what `pre` becomes by
/// handing out exactly `bytes`, in order.
pub trait Read: Sized {
    /// `post` is this source after it has handed out exactly `bytes`.
    spec fn yields(&self, bytes: Seq<u8>, post: &Self) -> bool;

    /// Handing out nothing leaves a source as it is.
    proof fn yields_nothing(&self)
        ensures
            self.yields(Seq::empty(), self),
    ;

    /// Handing out `first` and then `second` is handing out `first + second`.
    proof fn yields_in_turn(&self, first: Seq<u8>, mid: &Self, second: Seq<u8>, post: &Self)
        requires
            self.yields(first, mid),
            mid.yields(second, post),
        ensures
            self.yields(first + second, post),
    ;

    /// Reads some bytes into the front of `buf` and returns their number. The
    /// rest of `buf` is left as it was. After an error nothing is promised of
    /// the source or of what `buf` holds.
    fn read(&mut self, buf: &mut [u8]) -> (r: Result<usize, AxError>)
        ensures
            final(buf)@.len() == old(buf)@.len(),
            r matches Ok(n) ==> {
                &&& n <= old(buf)@.len()
                &&& final(buf)@.skip(n as int) == old(buf)@.skip(n as int)
                &&& (*old(self)).yields(final(buf)@.take(n as int), &*final(self))
            },
    ;

    /// Fills all of `buf`, calling `read` until no room is left. Fails with
    /// the source's error, or with the `Io` error when the source hands out
    /// nothing while room is left.
    fn read_exact(&mut self, buf: &mut [u8]) -> (r: Result<(), AxError>)
        ensures
            final(buf)@.len() == old(buf)@.len(),
            r is Ok ==> (*old(self)).yields(final(buf)@, &*final(self)),
            old(buf)@.len() == 0 ==> r is Ok,
    {
        let total = buf.len();
        let mut filled: usize = 0;
        let mut failure: Option<AxError> = None;
        proof {
            (*self).yields_nothing();
            assert(buf@.take(0) =~= Seq::empty());
        }
        while filled < total
            invariant_except_break
                failure is None,
                (*old(self)).yields(buf@.take(filled as int), &*self),
            invariant
                total == old(buf)@.len(),
                buf@.len() == total,
                filled <= total,
            ensures
                buf@.len() == total,
                failure is None ==> filled == total && (*old(self)).yields(
                    buf@.take(filled as int),
                    &*self,
                ),
                total == 0 ==> failure is None,
            decreases total - filled,
        {
            let ghost before = *self;
            let ghost head = buf@.take(filled as int);
            let (_, room) = buf.split_at_mut(filled);
            let ghost got = final(room)@;
            let answer = self.read(room);
            proof {
                if let Ok(n) = answer {
                    assert(buf@.take(filled + n) =~= head + got.take(n as int));
                    (*old(self)).yields_in_turn(head, &before, got.take(n as int), &*self);
                }
            }
            match filled_after_read(filled, answer) {
                Ok(sum) => {
                    filled = sum;
                },
                Err(e) => {
                    failure = Some(e);
                    break ;
                },
            }
        }
        proof {
            assert(buf@.take(buf@.len() as int) =~= buf@);
        }
        match failure {
            None => Ok(()),
            Some(e) => Err(e),
        }
    }

    /// Reads until the source hands out nothing more and appends what it
    /// read to `buf`. Returns the number of bytes appended.
    ///
    /// Bytes are only ever appended: `buf` keeps what it held, also where the
    /// source fails after some reads. After an error nothing is promised of
    /// the source.
    ///
    /// The provided method reads piece by piece with `read`, and its error is
    /// the error of the `read` that failed.
    fn read_to_end(&mut self, buf: &mut Vec<u8>) -> (r: Result<usize, AxError>)
        ensures
            old(buf)@.len() <= final(buf)@.len(),
            final(buf)@.take(old(buf)@.len() as int) == old(buf)@,
            r matches Ok(n) ==> {
                &&& final(buf)@.len() == old(buf)@.len() + n
                &&& (*old(self)).yields(
                    final(buf)@.skip(old(buf)@.len() as int),
                    &*final(self),
                )
            },
        default_ensures
            r matches Err(e) ==> exists|
                source: &mut Self,
                room: &mut [u8],
                answer: Result<usize, AxError>,
            |
                {
                    &&& room@.len() > 0
                    &&& answer == Err::<usize, AxError>(e)
                    &&& #[trigger] call_ensures(Self::read, (source, room), answer)
                },
    {
        let start = buf.len();
        let mut probe: [u8; 32] = [0u8; 32];
        let mut failure: Option<AxError> = None;
        proof {
            (*self).yields_nothing();
            assert(buf@.skip(start as int) =~= Seq::empty());
        }
        loop
            invariant_except_break
                failure is None,
                (*old(self)).yields(buf@.skip(start as int), &*self),
            invariant
                start == old(buf)@.len(),
                start <= buf@.len(),
                buf@.take(start as int) == old(buf)@,
            ensures
                start == old(buf)@.len(),
                start <= buf@.len(),
                buf@.take(start as int) == old(buf)@,
                failure is None ==> (*old(self)).yields(buf@.skip(start as int), &*self),
                failure matches Some(e) ==> exists|
                    source: &mut Self,
                    room: &mut [u8],
                    answer: Result<usize, AxError>,
                |
                    {
                        &&& room@.len() > 0
                        &&& answer == Err::<usize, AxError>(e)
                        &&& #[trigger] call_ensures(Self::read, (source, room), answer)
                    },
            decreases usize::MAX - buf.len(),
        {
            let ghost before = *self;
            let ghost sofar = buf@;
            let room: &mut [u8] = &mut probe;
            let answer = self.read(room);
            proof {
                if let Ok(n) = answer {
                    (*old(self)).yields_in_turn(
                        sofar.skip(start as int),
                        &before,
                        probe@.take(n as int),
                        &*self,
                    );
                    assert((sofar + probe@.take(n as int)).skip(start as int) =~= sofar.skip(
                        start as int,
                    ) + probe@.take(n as int));
                }
            }
            match append_read(buf, probe.as_slice(), answer) {
                Ok(any) => {
                    if !any {
                        break ;
                    }
                },
                Err(e) => {
                    failure = Some(e);
                    break ;
                },
            }
        }
        match failure {
            None => Ok(buf.len() - start),
            Some(e) => Err(e),
        }
    }
}

} // verus!
