//! The traits of this crate for byte slices.

use crate::buf::{
    answered, copy_prefix, laid, lemma_answered_more, lemma_answered_none, sum, Buf, BufMut,
};
use crate::error::{error_code, io_error, write_zero_error, IO_ERROR_CODE, WRITE_ZERO_CODE};
use crate::{Read, Write};
use axerrno::AxError;
use vstd::prelude::*;

verus! {

impl<'a> Read for &'a [u8] {
    /// `bytes` stand at the front of the slice, and `post` is the rest.
    open spec fn yields(&self, bytes: Seq<u8>, post: &Self) -> bool {
        bytes.is_prefix_of((*self)@) && (*post)@ == (*self)@.skip(bytes.len() as int)
    }

    proof fn yields_nothing(&self) {
        assert((*self)@.skip(0) =~= (*self)@);
    }

    proof fn yields_in_turn(&self, first: Seq<u8>, mid: &Self, second: Seq<u8>, post: &Self) {
        assert((first + second).is_prefix_of((*self)@)) by {
        }
        assert((*post)@ =~= (*self)@.skip((first + second).len() as int));
    }

    /// Copies as many bytes as fit from the front of the slice into `buf`,
    /// and keeps the rest of the slice.
    fn read(&mut self, buf: &mut [u8]) -> (r: Result<usize, AxError>)
        ensures
            r matches Ok(n) && n == vstd::math::min(
                old(buf)@.len() as int,
                old(self)@.len() as int,
            ),
            r matches Ok(n) ==> {
                &&& final(buf)@ == old(self)@.take(n as int) + old(buf)@.skip(n as int)
                &&& final(self)@ == old(self)@.skip(n as int)
            },
    {
        let whole: &'a [u8] = *self;
        let amt = if buf.len() < whole.len() {
            buf.len()
        } else {
            whole.len()
        };
        let (a, b) = whole.split_at(amt);
        if amt == 1 {
            buf[0] = a[0];
        } else {
            copy_prefix(buf, a, amt);
        }
        *self = b;
        Ok(amt)
    }

    /// Fills `buf` from the front of the slice, or fails with the `Io` error
    /// and leaves both as they were when the slice is shorter than `buf`.
    fn read_exact(&mut self, buf: &mut [u8]) -> (r: Result<(), AxError>)
        ensures
            r is Ok <==> old(buf)@.len() <= old(self)@.len(),
            r is Ok ==> {
                &&& final(buf)@ == old(self)@.take(old(buf)@.len() as int)
                &&& final(self)@ == old(self)@.skip(old(buf)@.len() as int)
            },
            r matches Err(e) ==> {
                &&& error_code(e) == IO_ERROR_CODE
                &&& final(buf)@ == old(buf)@
                &&& final(self)@ == old(self)@
            },
    {
        let whole: &'a [u8] = *self;
        if buf.len() > whole.len() {
            return Err(io_error());
        }
        let amt = buf.len();
        let (a, b) = whole.split_at(amt);
        if amt == 1 {
            buf[0] = a[0];
        } else {
            copy_prefix(buf, a, amt);
        }
        *self = b;
        Ok(())
    }

    /// Appends the whole slice to `buf` and leaves the slice empty.
    fn read_to_end(&mut self, buf: &mut Vec<u8>) -> (r: Result<usize, AxError>)
        ensures
            r matches Ok(n) && n == old(self)@.len(),
            final(buf)@ == old(buf)@ + old(self)@,
            final(self)@.len() == 0,
    {
        let whole: &'a [u8] = *self;
        buf.extend_from_slice(whole);
        let len = whole.len();
        let (_, rest) = whole.split_at(len);
        *self = rest;
        Ok(len)
    }
}

impl<'a> Write for &'a mut [u8] {
    /// The slice has room for `bytes`, and `post` is the room behind them.
    open spec fn accepts(&self, bytes: Seq<u8>, post: &Self) -> bool {
        bytes.len() <= (*self)@.len() && (*post)@ == (*self)@.skip(bytes.len() as int)
    }

    proof fn accepts_nothing(&self) {
        assert((*self)@.skip(0) =~= (*self)@);
    }

    proof fn accepts_in_turn(&self, first: Seq<u8>, mid: &Self, second: Seq<u8>, post: &Self) {
        assert((*post)@ =~= (*self)@.skip((first + second).len() as int));
    }

    /// Copies as many bytes of `buf` as fit to the front of the slice, and
    /// keeps the room behind them.
    fn write(&mut self, buf: &[u8]) -> (r: Result<usize, AxError>)
        ensures
            r matches Ok(n) && n == vstd::math::min(buf@.len() as int, old(self)@.len() as int),
            r matches Ok(n) ==> {
                &&& final(self)@ == old(self)@.skip(n as int)
                &&& final(*old(self))@ == buf@.take(n as int) + final(*final(self))@
            },
    {
        let amt = if buf.len() < self.len() {
            buf.len()
        } else {
            self.len()
        };
        let mut whole: &'a mut [u8] = &mut [];
        core::mem::swap(self, &mut whole);
        let (a, b) = whole.split_at_mut(amt);
        if amt == 1 {
            a[0] = buf[0];
        } else {
            copy_prefix(a, buf, amt);
        }
        *self = b;
        Ok(amt)
    }

    /// Does nothing: a slice holds nothing back.
    fn flush(&mut self) -> (r: Result<(), AxError>)
        ensures
            r is Ok,
            final(self)@ == old(self)@,
            final(*final(self))@ == final(*old(self))@,
    {
        proof {
            (*self).accepts_nothing();
        }
        Ok(())
    }

    /// Copies all of `buf` to the front of the slice and keeps the room
    /// behind it; or, when the slice is shorter than `buf`, copies what fits,
    /// keeps no room and fails with the `WriteZero` error.
    fn write_all(&mut self, buf: &[u8]) -> (r: Result<(), AxError>)
        ensures
            r is Ok <==> buf@.len() <= old(self)@.len(),
            r is Ok ==> {
                &&& final(self)@ == old(self)@.skip(buf@.len() as int)
                &&& final(*old(self))@ == buf@ + final(*final(self))@
            },
            r matches Err(e) ==> {
                &&& error_code(e) == WRITE_ZERO_CODE
                &&& final(self)@.len() == 0
                &&& final(*old(self))@ == buf@.take(old(self)@.len() as int) + final(
                    *final(self)
                )@
            },
    {
        let written = match self.write(buf) {
            Ok(n) => n,
            Err(e) => {
                return Err(e);
            },
        };
        if written < buf.len() {
            Err(write_zero_error())
        } else {
            Ok(())
        }
    }
}

impl<'a> Buf for &'a [u8] {
    /// The slice itself: the cursor is its front.
    open spec fn unread(&self) -> Seq<u8> {
        (*self)@
    }

    /// Returns the length of the slice.
    fn remaining(&self) -> (n: usize)
        ensures
            n == self.unread().len(),
    {
        self.len()
    }

    /// Returns the whole slice: it lies in one piece.
    fn chunk(&self) -> (c: &[u8])
        ensures
            c@ == self.unread(),
    {
        *self
    }

    /// Drops the first `n` bytes from the slice.
    fn advance(&mut self, n: usize) {
        let whole: &'a [u8] = *self;
        let (_, rest) = whole.split_at(n);
        *self = rest;
    }
}

impl<'a> Buf for &'a mut [u8] {
    /// What the slice holds now: the cursor is its front.
    open spec fn unread(&self) -> Seq<u8> {
        (*self)@
    }

    /// Returns the length of the slice.
    fn remaining(&self) -> (n: usize)
        ensures
            n == self.unread().len(),
    {
        self.len()
    }

    /// Returns the whole slice: it lies in one piece.
    fn chunk(&self) -> (c: &[u8])
        ensures
            c@ == self.unread(),
    {
        &**self
    }

    /// Drops the first `n` bytes from the slice. They stay where they are:
    /// the memory that the slice stood for ends up holding them, followed by
    /// what the rest of the slice ends up holding.
    fn advance(&mut self, n: usize)
        ensures
            final(*old(self))@ == old(self).unread().take(n as int) + final(*final(self))@,
    {
        let mut whole: &'a mut [u8] = &mut [];
        core::mem::swap(self, &mut whole);
        let (_, rest) = whole.split_at_mut(n);
        *self = rest;
    }
}

impl<'a> BufMut for &'a mut [u8] {
    /// Returns the whole slice: it lies in one piece.
    fn chunk_mut(&mut self) -> (c: &mut [u8])
        ensures
            c@ == old(self).unread(),
            final(*final(self))@ == final(*old(self))@,
    {
        &mut **self
    }

    /// Hands the slice to `f`, which writes into it and answers how many
    /// bytes it wrote, and drops that many bytes from the front, again and
    /// again, until the slice is empty or `f` answers zero.
    ///
    /// Each time `f` is handed what the slice holds then: at first what it
    /// held, and later what `f` left behind the bytes that it counted. The
    /// memory that the slice stood for ends up holding the bytes that `f`
    /// counted, call by call, followed by what the rest of the slice ends up
    /// holding. In the contract, `left[i]` is what the `i`-th room held when
    /// `f` was done with it.
    fn fill_with<R>(&mut self, mut f: impl FnMut(&mut [u8]) -> Result<usize, R>) -> (r: Result<
        usize,
        R,
    >)
        ensures
            exists|rooms: Seq<&mut [u8]>, counts: Seq<usize>, left: Seq<Seq<u8>>|
                {
                    &&& #[trigger] answered(f, rooms, counts)
                    &&& r matches Ok(total) ==> total == sum(counts)
                    &&& #[trigger] left.len() == counts.len()
                    &&& rooms.len() == counts.len()
                    &&& counts.len() > 0 ==> rooms[0]@ == old(self)@
                    &&& forall|i: int|
                        0 <= i < counts.len() ==> {
                            &&& final(rooms[i])@ == #[trigger] left[i]
                            &&& i + 1 < counts.len() ==> rooms[i + 1]@ == left[i].skip(
                                counts[i] as int,
                            )
                        }
                    &&& final(*old(self))@ == laid(left, counts) + final(*final(self))@
                },
    {
        let mut written: usize = 0;
        let mut failure: Option<R> = None;
        let ghost f0 = f;
        // The rooms are chosen below by what they end up holding. A variable
        // that takes such values has to start with a value of that kind, and
        // so the empty sequence is written in this way.
        let ghost mut rooms: Seq<&mut [u8]> = if final(*self)@.len() == 0 {
            Seq::empty()
        } else {
            Seq::empty()
        };
        let ghost mut counts: Seq<usize> = Seq::empty();
        let ghost mut left: Seq<Seq<u8>> = Seq::empty();
        proof {
            lemma_answered_none(f0);
        }
        loop
            invariant_except_break
                failure is None,
                self@ == if counts.len() == 0 {
                    old(self)@
                } else {
                    left.last().skip(counts.last() as int)
                },
            invariant
                f == f0,
                old(self).unread().len() <= usize::MAX,
                forall|d: &mut [u8]|
                    0 < d@.len() <= old(self).unread().len() ==> call_requires(f, (d,)),
                forall|d: &mut [u8], a: Result<usize, R>|
                    0 < d@.len() <= old(self).unread().len() && #[trigger] call_ensures(
                        f,
                        (d,),
                        a,
                    ) ==> final(d)@.len() == d@.len() && (a matches Ok(n) ==> n <= d@.len()),
                written <= old(self).unread().len(),
                written == sum(counts),
                answered(f0, rooms, counts),
                self.unread().len() == old(self).unread().len() - written,
                left.len() == counts.len(),
                rooms.len() == counts.len(),
                final(*old(self))@ == laid(left, counts) + final(*self)@,
                counts.len() > 0 ==> rooms[0]@ == old(self)@,
                forall|i: int|
                    0 <= i < counts.len() ==> {
                        &&& final(rooms[i])@ == #[trigger] left[i]
                        &&& i + 1 < counts.len() ==> rooms[i + 1]@ == left[i].skip(
                            counts[i] as int,
                        )
                    },
            ensures
                written <= old(self).unread().len(),
                written == sum(counts),
                answered(f0, rooms, counts),
                self.unread().len() == old(self).unread().len() - written,
                match failure {
                    None => self.unread().len() == 0 || exists|d: &mut [u8]|
                        d@.len() > 0 && call_ensures(f0, (d,), Ok(0usize)),
                    Some(e) => exists|d: &mut [u8]|
                        d@.len() > 0 && call_ensures(f0, (d,), Err(e)),
                },
                left.len() == counts.len(),
                rooms.len() == counts.len(),
                final(*old(self))@ == laid(left, counts) + final(*self)@,
                counts.len() > 0 ==> rooms[0]@ == old(self)@,
                forall|i: int|
                    0 <= i < counts.len() ==> {
                        &&& final(rooms[i])@ == #[trigger] left[i]
                        &&& i + 1 < counts.len() ==> rooms[i + 1]@ == left[i].skip(
                            counts[i] as int,
                        )
                    },
            decreases self.unread().len(),
        {
            let ghost held = self@;
            let d = self.chunk_mut();
            if d.len() == 0 {
                break ;
            }
            let cnt = match f(d) {
                Ok(cnt) => cnt,
                Err(e) => {
                    failure = Some(e);
                    break ;
                },
            };
            if cnt == 0 {
                break ;
            }
            proof {
                let answer = Ok::<usize, R>(cnt);
                let after = self@;
                let room = choose|room: &mut [u8]|
                    room@ == held && final(room)@ == after && #[trigger] call_ensures(
                        f0,
                        (room,),
                        answer,
                    );
                lemma_answered_more(f0, rooms, counts, room, cnt);
                let more_rooms = rooms.push(room);
                let more = counts.push(cnt);
                let more_left = left.push(after);
                assert(more.drop_last() =~= counts);
                assert(more_left.drop_last() =~= left);
                assert(laid(more_left, more) == laid(left, counts) + after.take(cnt as int));
                assert forall|i: int| 0 <= i < more.len() implies {
                    &&& final(more_rooms[i])@ == #[trigger] more_left[i]
                    &&& i + 1 < more.len() ==> more_rooms[i + 1]@ == more_left[i].skip(
                        more[i] as int,
                    )
                } by {
                    if i < counts.len() {
                        assert(more_rooms[i] == rooms[i]);
                        assert(more_left[i] == left[i]);
                        if i + 1 < counts.len() {
                            assert(more_rooms[i + 1] == rooms[i + 1]);
                        } else {
                            assert(more_rooms[i + 1] == room);
                            assert(left[i] == left.last());
                        }
                    } else {
                        assert(more_rooms[i] == room);
                    }
                }
                rooms = more_rooms;
                counts = more;
                left = more_left;
            }
            self.advance(cnt);
            written += cnt;
        }
        match failure {
            None => Ok(written),
            Some(e) => Err(e),
        }
    }

    /// Copies bytes from `src` to the front of the slice and drops them from
    /// both, until one of the two is at its end. The memory that the slice
    /// stood for ends up holding the bytes copied, in the order of `src`,
    /// followed by what the rest of the slice ends up holding.
    fn put(&mut self, src: &mut impl Buf) -> (n: usize)
        ensures
            final(*old(self))@ == old(src).unread().take(n as int) + final(*final(self))@,
    {
        let mut written: usize = 0;
        loop
            invariant
                old(self).unread().len() <= usize::MAX || old(src).unread().len() <= usize::MAX,
                written <= old(self).unread().len(),
                written <= old(src).unread().len(),
                src.unread() == old(src).unread().skip(written as int),
                self.unread() == old(self).unread().skip(written as int),
                final(*old(self))@ == old(src).unread().take(written as int) + final(*self)@,
            ensures
                written <= old(self).unread().len(),
                written <= old(src).unread().len(),
                src.unread() == old(src).unread().skip(written as int),
                self.unread() == old(self).unread().skip(written as int),
                written == old(self).unread().len() || written == old(src).unread().len(),
                final(*old(self))@ == old(src).unread().take(written as int) + final(*self)@,
            decreases self.unread().len(),
        {
            let d = self.chunk_mut();
            if d.len() == 0 {
                break ;
            }
            let s = src.chunk();
            let cnt = if s.len() < d.len() {
                s.len()
            } else {
                d.len()
            };
            if cnt == 0 {
                break ;
            }
            copy_prefix(d, s, cnt);
            src.advance(cnt);
            self.advance(cnt);
            written += cnt;
        }
        written
    }
}

impl Write for Vec<u8> {
    /// `post` holds what the vector held, followed by `bytes`.
    open spec fn accepts(&self, bytes: Seq<u8>, post: &Self) -> bool {
        post@ == self@ + bytes
    }

    proof fn accepts_nothing(&self) {
    }

    proof fn accepts_in_turn(&self, first: Seq<u8>, mid: &Self, second: Seq<u8>, post: &Self) {
        assert((self@ + first) + second =~= self@ + (first + second));
    }

    /// Appends all of `buf` to the vector.
    fn write(&mut self, buf: &[u8]) -> (r: Result<usize, AxError>)
        ensures
            r matches Ok(n) && n == buf@.len(),
            final(self)@ == old(self)@ + buf@,
    {
        self.extend_from_slice(buf);
        proof {
            assert(self@ =~= old(self)@ + buf@);
            assert(buf@.take(buf@.len() as int) =~= buf@);
        }
        Ok(buf.len())
    }

    /// Does nothing: a vector holds nothing back.
    fn flush(&mut self) -> (r: Result<(), AxError>)
        ensures
            r is Ok,
            final(self)@ == old(self)@,
    {
        Ok(())
    }

    /// Appends all of `buf` to the vector.
    fn write_all(&mut self, buf: &[u8]) -> (r: Result<(), AxError>)
        ensures
            r is Ok,
            final(self)@ == old(self)@ + buf@,
    {
        self.extend_from_slice(buf);
        proof {
            assert(self@ =~= old(self)@ + buf@);
        }
        Ok(())
    }
}

impl<R: Read> Read for &mut R {
    /// What the source behind the reference says.
    open spec fn yields(&self, bytes: Seq<u8>, post: &Self) -> bool {
        (**self).yields(bytes, &**post)
    }

    proof fn yields_nothing(&self) {
        (**self).yields_nothing();
    }

    proof fn yields_in_turn(&self, first: Seq<u8>, mid: &Self, second: Seq<u8>, post: &Self) {
        (**self).yields_in_turn(first, &**mid, second, &**post);
    }

    /// Reads through the reference: the answer is the answer of a read of
    /// the source behind the reference into `buf`, and the source and `buf`
    /// are left as that read leaves them.
    fn read(&mut self, buf: &mut [u8]) -> (r: Result<usize, AxError>)
        ensures
            *final(*final(self)) == *final(*old(self)),
            exists|source: &mut R, room: &mut [u8]|
                {
                    &&& *source == **old(self)
                    &&& *final(source) == **final(self)
                    &&& room@ == old(buf)@
                    &&& final(room)@ == final(buf)@
                    &&& #[trigger] call_ensures(R::read, (source, room), r)
                },
    {
        (**self).read(buf)
    }

    /// Fills `buf` through the reference.
    fn read_exact(&mut self, buf: &mut [u8]) -> (r: Result<(), AxError>) {
        (**self).read_exact(buf)
    }

    /// Reads to the end through the reference: the answer is the answer of
    /// the source behind the reference, asked to read to its end into `buf`,
    /// and the source and `buf` are left as that leaves them.
    fn read_to_end(&mut self, buf: &mut Vec<u8>) -> (r: Result<usize, AxError>)
        ensures
            *final(*final(self)) == *final(*old(self)),
            exists|source: &mut R, room: &mut Vec<u8>|
                {
                    &&& *source == **old(self)
                    &&& *final(source) == **final(self)
                    &&& room@ == old(buf)@
                    &&& final(room)@ == final(buf)@
                    &&& #[trigger] call_ensures(R::read_to_end, (source, room), r)
                },
    {
        (**self).read_to_end(buf)
    }
}

impl<W: Write> Write for &mut W {
    /// What the sink behind the reference says.
    open spec fn accepts(&self, bytes: Seq<u8>, post: &Self) -> bool {
        (**self).accepts(bytes, &**post)
    }

    proof fn accepts_nothing(&self) {
        (**self).accepts_nothing();
    }

    proof fn accepts_in_turn(&self, first: Seq<u8>, mid: &Self, second: Seq<u8>, post: &Self) {
        (**self).accepts_in_turn(first, &**mid, second, &**post);
    }

    /// Writes through the reference: the answer is the answer of the sink
    /// behind the reference to a write of `buf`, and the sink is left as that
    /// write leaves it.
    fn write(&mut self, buf: &[u8]) -> (r: Result<usize, AxError>)
        ensures
            *final(*final(self)) == *final(*old(self)),
            exists|sink: &mut W|
                {
                    &&& *sink == **old(self)
                    &&& *final(sink) == **final(self)
                    &&& #[trigger] call_ensures(W::write, (sink, buf), r)
                },
    {
        (**self).write(buf)
    }

    /// Flushes through the reference: the answer is the answer of the sink
    /// behind the reference to a flush, and the sink is left as that flush
    /// leaves it.
    fn flush(&mut self) -> (r: Result<(), AxError>)
        ensures
            *final(*final(self)) == *final(*old(self)),
            exists|sink: &mut W|
                {
                    &&& *sink == **old(self)
                    &&& *final(sink) == **final(self)
                    &&& #[trigger] call_ensures(W::flush, (sink,), r)
                },
    {
        (**self).flush()
    }

    /// Writes all of `buf` through the reference.
    fn write_all(&mut self, buf: &[u8]) -> (r: Result<(), AxError>) {
        (**self).write_all(buf)
    }
}

} // verus!
