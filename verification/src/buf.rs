//! Sequential, chunked access to a byte sequence.
//!
//! A [`Buf`] is a cursor over bytes still to be read. A [`BufMut`] is a cursor
//! over room still to be filled: its bytes are what the room holds now, and
//! advancing the cursor leaves the bytes it passes where they are.

use crate::{Read, Write};
use axerrno::AxError;
use vstd::prelude::*;

verus! {

/// Read bytes from a buffer.
pub trait Buf: Sized {
    /// The bytes from the cursor to the end.
    spec fn unread(&self) -> Seq<u8>;

    /// Returns a lower bound on the number of bytes from the cursor to the
    /// end. It is zero only at the end.
    fn remaining(&self) -> (n: usize)
        ensures
            n <= self.unread().len(),
            n == 0 <==> self.unread().len() == 0,
    ;

    /// Returns the bytes at the cursor that lie in one piece. The piece is
    /// empty only at the end.
    fn chunk(&self) -> (c: &[u8])
        ensures
            c@.is_prefix_of(self.unread()),
            c@.len() == 0 <==> self.unread().len() == 0,
    ;

    /// Moves the cursor `n` bytes on. There must be that many bytes from the
    /// cursor to the end.
    fn advance(&mut self, n: usize)
        requires
            n <= old(self).unread().len(),
        ensures
            final(self).unread() == old(self).unread().skip(n as int),
    ;

    /// Creates an adaptor which implements the `Read` trait for `self`.
    fn reader(self) -> (r: Reader<Self>)
        ensures
            r.inner() == self,
    {
        Reader(self)
    }

    /// Hands the piece at the cursor to `f` and moves on by the count that `f`
    /// answers, again and again, until the end is reached or `f` answers zero.
    /// Returns the sum of the counts, or the first error of `f`.
    ///
    /// The cursor stands behind the bytes that `f` has counted, also where
    /// `f` fails: the piece on which it failed is not passed over.
    fn read_with<R>(&mut self, mut f: impl FnMut(&[u8]) -> Result<usize, R>) -> (r: Result<
        usize,
        R,
    >)
        requires
            old(self).unread().len() <= usize::MAX,
            forall|d: &[u8], k: int|
                #![trigger call_requires(f, (d,)), old(self).unread().skip(k)]
                0 <= k <= old(self).unread().len() && d@.len() > 0 && d@.is_prefix_of(
                    old(self).unread().skip(k),
                ) ==> call_requires(f, (d,)),
            forall|d: &[u8], k: int, n: usize|
                #![trigger call_ensures(f, (d,), Ok(n)), old(self).unread().skip(k)]
                0 <= k <= old(self).unread().len() && d@.len() > 0 && d@.is_prefix_of(
                    old(self).unread().skip(k),
                ) && call_ensures(f, (d,), Ok(n)) ==> n <= d@.len(),
        ensures
            exists|counts: Seq<usize>|
                {
                    &&& #[trigger] counted(f, old(self).unread(), counts)
                    &&& sum(counts) <= old(self).unread().len()
                    &&& final(self).unread() == old(self).unread().skip(sum(counts) as int)
                    &&& r matches Ok(total) ==> total == sum(counts)
                },
            match r {
                Ok(total) => {
                    &&& total <= old(self).unread().len()
                    &&& final(self).unread() == old(self).unread().skip(total as int)
                    &&& final(self).unread().len() == 0 || exists|d: &[u8]|
                        d@.len() > 0 && d@.is_prefix_of(final(self).unread()) && call_ensures(
                            f,
                            (d,),
                            Ok(0usize),
                        )
                },
                Err(e) => exists|d: &[u8]|
                    d@.len() > 0 && d@.is_prefix_of(final(self).unread()) && call_ensures(
                        f,
                        (d,),
                        Err(e),
                    ),
            },
    {
        let mut read: usize = 0;
        let mut failure: Option<R> = None;
        let ghost f0 = f;
        let ghost mut counts: Seq<usize> = Seq::empty();
        loop
            invariant_except_break
                failure is None,
            invariant
                f == f0,
                old(self).unread().len() <= usize::MAX,
                forall|d: &[u8], k: int|
                    #![trigger call_requires(f, (d,)), old(self).unread().skip(k)]
                    0 <= k <= old(self).unread().len() && d@.len() > 0 && d@.is_prefix_of(
                        old(self).unread().skip(k),
                    ) ==> call_requires(f, (d,)),
                forall|d: &[u8], k: int, n: usize|
                    #![trigger call_ensures(f, (d,), Ok(n)), old(self).unread().skip(k)]
                    0 <= k <= old(self).unread().len() && d@.len() > 0 && d@.is_prefix_of(
                        old(self).unread().skip(k),
                    ) && call_ensures(f, (d,), Ok(n)) ==> n <= d@.len(),
                read <= old(self).unread().len(),
                read == sum(counts),
                counted(f0, old(self).unread(), counts),
                self.unread() == old(self).unread().skip(read as int),
            ensures
                read <= old(self).unread().len(),
                read == sum(counts),
                counted(f0, old(self).unread(), counts),
                self.unread() == old(self).unread().skip(read as int),
                match failure {
                    None => self.unread().len() == 0 || exists|d: &[u8]|
                        d@.len() > 0 && d@.is_prefix_of(self.unread()) && call_ensures(
                            f0,
                            (d,),
                            Ok(0usize),
                        ),
                    Some(e) => exists|d: &[u8]|
                        d@.len() > 0 && d@.is_prefix_of(self.unread()) && call_ensures(
                            f0,
                            (d,),
                            Err(e),
                        ),
                },
            decreases self.unread().len(),
        {
            let d = self.chunk();
            if d.len() == 0 {
                break ;
            }
            let cnt = match f(d) {
                Ok(cnt) => cnt,
                Err(e) => {
                    failure = Some(e);
                    break ;
                },
            };
            if cnt == 0 {
                break ;
            }
            proof {
                let answer = Ok::<usize, R>(cnt);
                assert(call_ensures(f0, (d,), answer));
                assert(counts.push(cnt).drop_last() =~= counts);
                counts = counts.push(cnt);
            }
            self.advance(cnt);
            read += cnt;
        }
        match failure {
            None => Ok(read),
            Some(e) => Err(e),
        }
    }
}

/// The sum of `counts`.
pub open spec fn sum(counts: Seq<usize>) -> nat
    decreases counts.len(),
{
    if counts.len() == 0 {
        0
    } else {
        (sum(counts.drop_last()) + counts.last()) as nat
    }
}

/// Whether `counts` are the counts that `f` has answered to pieces of
/// `unread`, one after the other: each count is above zero, and `f` has
/// answered it to a piece that is not empty, that holds at least that many
/// bytes, and that stands in `unread` where the counts before it end.
pub open spec fn counted<R, F: FnMut(&[u8]) -> Result<usize, R>>(
    f: F,
    unread: Seq<u8>,
    counts: Seq<usize>,
) -> bool
    decreases counts.len(),
{
    counts.len() == 0 || {
        let before = counts.drop_last();
        &&& counted(f, unread, before)
        &&& counts.last() > 0
        &&& sum(counts) <= unread.len()
        &&& exists|d: &[u8], answer: Result<usize, R>|
            {
                &&& d@.len() >= counts.last()
                &&& d@.is_prefix_of(unread.skip(sum(before) as int))
                &&& answer == Ok::<usize, R>(counts.last())
                &&& #[trigger] call_ensures(f, (d,), answer)
            }
    }
}

/// What `counted` says of the last count: `f` has answered it, above zero, to
/// a piece that stands where the counts before it end, and these are counted
/// in their turn.
pub proof fn lemma_counted_last<R, F: FnMut(&[u8]) -> Result<usize, R>>(
    f: F,
    unread: Seq<u8>,
    counts: Seq<usize>,
)
    requires
        counted(f, unread, counts),
        counts.len() > 0,
    ensures
        counted(f, unread, counts.drop_last()),
        counts.last() > 0,
        sum(counts) == sum(counts.drop_last()) + counts.last(),
        sum(counts) <= unread.len(),
        exists|d: &[u8], answer: Result<usize, R>|
            {
                &&& d@.len() >= counts.last()
                &&& d@.is_prefix_of(unread.skip(sum(counts.drop_last()) as int))
                &&& answer == Ok::<usize, R>(counts.last())
                &&& #[trigger] call_ensures(f, (d,), answer)
            },
{
}

/// What `answered` says of each room: `f` has answered its count to it, and
/// the count is above zero and within the room.
pub proof fn lemma_answered_at<R, F: FnMut(&mut [u8]) -> Result<usize, R>>(
    f: F,
    rooms: Seq<&mut [u8]>,
    counts: Seq<usize>,
    i: int,
)
    requires
        answered(f, rooms, counts),
        0 <= i < counts.len(),
    ensures
        rooms.len() == counts.len(),
        0 < counts[i] <= rooms[i]@.len(),
        call_ensures(f, (rooms[i],), Ok::<usize, R>(counts[i])),
{
    reveal(answered);
    assert(0 < counts[i]);
}

/// Whether `counts` are the counts that `f` has answered to `rooms`, one
/// each: each count is above zero and within its room.
#[verifier::opaque]
pub open spec fn answered<R, F: FnMut(&mut [u8]) -> Result<usize, R>>(
    f: F,
    rooms: Seq<&mut [u8]>,
    counts: Seq<usize>,
) -> bool {
    &&& rooms.len() == counts.len()
    &&& forall|i: int|
        0 <= i < counts.len() ==> {
            &&& 0 < #[trigger] counts[i] <= rooms[i]@.len()
            &&& exists|answer: Result<usize, R>|
                answer == Ok::<usize, R>(counts[i]) && #[trigger] call_ensures(
                    f,
                    (rooms[i],),
                    answer,
                )
        }
}

/// The bytes that the counts take from the front of each of `pieces`, laid
/// end to end.
pub open spec fn laid(pieces: Seq<Seq<u8>>, counts: Seq<usize>) -> Seq<u8>
    decreases counts.len(),
{
    if counts.len() == 0 || pieces.len() == 0 {
        Seq::empty()
    } else {
        laid(pieces.drop_last(), counts.drop_last()) + pieces.last().take(counts.last() as int)
    }
}

/// No rooms are answered with no counts.
pub(crate) proof fn lemma_answered_none<R, F: FnMut(&mut [u8]) -> Result<usize, R>>(f: F)
    ensures
        answered(f, Seq::<&mut [u8]>::empty(), Seq::<usize>::empty()),
{
    reveal(answered);
}

/// One more room with its count is answered as the rooms before it are.
pub(crate) proof fn lemma_answered_more<R, F: FnMut(&mut [u8]) -> Result<usize, R>>(
    f: F,
    rooms: Seq<&mut [u8]>,
    counts: Seq<usize>,
    room: &mut [u8],
    count: usize,
)
    requires
        answered(f, rooms, counts),
        0 < count <= room@.len(),
        call_ensures(f, (room,), Ok::<usize, R>(count)),
    ensures
        answered(f, rooms.push(room), counts.push(count)),
        sum(counts.push(count)) == sum(counts) + count,
{
    reveal(answered);
    assert(counts.push(count).drop_last() =~= counts);
    let more = counts.push(count);
    assert forall|i: int| 0 <= i < more.len() implies {
        &&& 0 < #[trigger] more[i] <= rooms.push(room)[i]@.len()
        &&& exists|answer: Result<usize, R>|
            answer == Ok::<usize, R>(more[i]) && #[trigger] call_ensures(
                f,
                (rooms.push(room)[i],),
                answer,
            )
    } by {
        if i < counts.len() {
            assert(0 < counts[i] <= rooms[i]@.len());
            let answer = choose|answer: Result<usize, R>|
                answer == Ok::<usize, R>(counts[i]) && #[trigger] call_ensures(
                    f,
                    (rooms[i],),
                    answer,
                );
            assert(rooms.push(room)[i] == rooms[i]);
            assert(more[i] == counts[i]);
            assert(call_ensures(f, (rooms.push(room)[i],), answer));
        } else {
            let answer = Ok::<usize, R>(count);
            assert(rooms.push(room)[i] == room);
            assert(more[i] == count);
            assert(call_ensures(f, (rooms.push(room)[i],), answer));
        }
    }
}

/// Copies the first `n` bytes of `src` over the first `n` bytes of `dst`.
pub(crate) fn copy_prefix(dst: &mut [u8], src: &[u8], n: usize)
    requires
        n <= old(dst)@.len(),
        n <= src@.len(),
    ensures
        final(dst)@ == src@.take(n as int) + old(dst)@.skip(n as int),
{
    let mut i: usize = 0;
    while i < n
        invariant
            i <= n,
            n <= src@.len(),
            dst@.len() == old(dst)@.len(),
            n <= dst@.len(),
            dst@ == src@.take(i as int) + old(dst)@.skip(i as int),
        decreases n - i,
    {
        dst[i] = src[i];
        i += 1;
    }
}

/// Write bytes into a buffer.
pub trait BufMut: Buf {
    /// Returns the room at the cursor that lies in one piece, for writing.
    /// The piece is empty only at the end. What the caller leaves in the piece
    /// stands at the cursor afterwards.
    fn chunk_mut(&mut self) -> (c: &mut [u8])
        ensures
            c@.is_prefix_of(old(self).unread()),
            c@.len() == 0 <==> old(self).unread().len() == 0,
            final(self).unread() == final(c)@ + old(self).unread().skip(c@.len() as int),
    ;

    /// Creates an adaptor which implements the `Write` trait for `self`.
    fn writer(self) -> (w: Writer<Self>)
        ensures
            w.inner() == self,
    {
        Writer(self)
    }

    /// Hands the room at the cursor to `f`, which writes into it and answers
    /// how many bytes it wrote, and moves on by that count, again and again,
    /// until the end is reached or `f` answers zero. Returns the sum of the
    /// counts, or the first error of `f`.
    ///
    /// The cursor stands behind the bytes that `f` has counted, also where
    /// `f` fails.
    fn fill_with<R>(&mut self, mut f: impl FnMut(&mut [u8]) -> Result<usize, R>) -> (r: Result<
        usize,
        R,
    >)
        requires
            old(self).unread().len() <= usize::MAX,
            forall|d: &mut [u8]|
                0 < d@.len() <= old(self).unread().len() ==> call_requires(f, (d,)),
            forall|d: &mut [u8], a: Result<usize, R>|
                0 < d@.len() <= old(self).unread().len() && #[trigger] call_ensures(f, (d,), a)
                    ==> final(d)@.len() == d@.len() && (a matches Ok(n) ==> n <= d@.len()),
        ensures
            exists|rooms: Seq<&mut [u8]>, counts: Seq<usize>|
                {
                    &&& #[trigger] answered(f, rooms, counts)
                    &&& sum(counts) <= old(self).unread().len()
                    &&& final(self).unread().len() == old(self).unread().len() - sum(counts)
                    &&& r matches Ok(total) ==> total == sum(counts)
                },
            match r {
                Ok(total) => {
                    &&& total <= old(self).unread().len()
                    &&& final(self).unread().len() == old(self).unread().len() - total
                    &&& final(self).unread().len() == 0 || exists|d: &mut [u8]|
                        d@.len() > 0 && call_ensures(f, (d,), Ok(0usize))
                },
                Err(e) => exists|d: &mut [u8]| d@.len() > 0 && call_ensures(f, (d,), Err(e)),
            },
    {
        let mut written: usize = 0;
        let mut failure: Option<R> = None;
        let ghost f0 = f;
        let ghost mut rooms: Seq<&mut [u8]> = Seq::empty();
        let ghost mut counts: Seq<usize> = Seq::empty();
        proof {
            lemma_answered_none(f0);
        }
        loop
            invariant_except_break
                failure is None,
            invariant
                f == f0,
                old(self).unread().len() <= usize::MAX,
                forall|d: &mut [u8]|
                    0 < d@.len() <= old(self).unread().len() ==> call_requires(f, (d,)),
                forall|d: &mut [u8], a: Result<usize, R>|
                    0 < d@.len() <= old(self).unread().len() && #[trigger] call_ensures(
                        f,
                        (d,),
                        a,
                    ) ==> final(d)@.len() == d@.len() && (a matches Ok(n) ==> n <= d@.len()),
                written <= old(self).unread().len(),
                written == sum(counts),
                answered(f0, rooms, counts),
                self.unread().len() == old(self).unread().len() - written,
            ensures
                written <= old(self).unread().len(),
                written == sum(counts),
                answered(f0, rooms, counts),
                self.unread().len() == old(self).unread().len() - written,
                match failure {
                    None => self.unread().len() == 0 || exists|d: &mut [u8]|
                        d@.len() > 0 && call_ensures(f0, (d,), Ok(0usize)),
                    Some(e) => exists|d: &mut [u8]|
                        d@.len() > 0 && call_ensures(f0, (d,), Err(e)),
                },
            decreases self.unread().len(),
        {
            let d = self.chunk_mut();
            if d.len() == 0 {
                break ;
            }
            let ghost size = d@.len();
            let cnt = match f(d) {
                Ok(cnt) => cnt,
                Err(e) => {
                    failure = Some(e);
                    break ;
                },
            };
            if cnt == 0 {
                break ;
            }
            proof {
                let answer = Ok::<usize, R>(cnt);
                let room = choose|room: &mut [u8]|
                    room@.len() == size && #[trigger] call_ensures(f0, (room,), answer);
                lemma_answered_more(f0, rooms, counts, room, cnt);
                rooms = rooms.push(room);
                counts = counts.push(cnt);
            }
            self.advance(cnt);
            written += cnt;
        }
        match failure {
            None => Ok(written),
            Some(e) => Err(e),
        }
    }

    /// Copies bytes from `src` to the cursor and moves both cursors past
    /// them, until one of the two is at its end. Returns the number of bytes
    /// copied.
    ///
    /// The provided method writes the bytes to the front of the rooms that
    /// `chunk_mut` hands out, room by room and in the order of `src`. In its
    /// contract, `left[i]` is what the `i`-th room is left holding and
    /// `counts[i]` the number of bytes written to it.
    fn put(&mut self, src: &mut impl Buf) -> (n: usize)
        requires
            old(self).unread().len() <= usize::MAX || old(src).unread().len() <= usize::MAX,
        ensures
            n == old(self).unread().len() || n == old(src).unread().len(),
            n <= old(self).unread().len(),
            n <= old(src).unread().len(),
            final(src).unread() == old(src).unread().skip(n as int),
            final(self).unread() == old(self).unread().skip(n as int),
        default_ensures
            exists|
                cursors: Seq<&mut Self>,
                rooms: Seq<&mut [u8]>,
                counts: Seq<usize>,
                left: Seq<Seq<u8>>,
            |
                {
                    &&& #[trigger] rooms.len() == counts.len()
                    &&& #[trigger] cursors.len() == counts.len()
                    &&& left.len() == counts.len()
                    &&& sum(counts) == n
                    &&& forall|i: int|
                        #![trigger rooms[i]]
                        0 <= i < counts.len() ==> {
                            &&& final(rooms[i])@ == left[i]
                            &&& call_ensures(Self::chunk_mut, (cursors[i],), rooms[i])
                        }
                    &&& #[trigger] laid(left, counts) == old(src).unread().take(n as int)
                },
    {
        let mut written: usize = 0;
        let ghost mut cursors: Seq<&mut Self> = Seq::empty();
        let ghost mut rooms: Seq<&mut [u8]> = Seq::empty();
        let ghost mut counts: Seq<usize> = Seq::empty();
        let ghost mut left: Seq<Seq<u8>> = Seq::empty();
        loop
            invariant
                old(self).unread().len() <= usize::MAX || old(src).unread().len() <= usize::MAX,
                written <= old(self).unread().len(),
                written <= old(src).unread().len(),
                src.unread() == old(src).unread().skip(written as int),
                self.unread() == old(self).unread().skip(written as int),
                rooms.len() == counts.len(),
                left.len() == counts.len(),
                sum(counts) == written,
                cursors.len() == counts.len(),
                forall|i: int|
                    #![trigger rooms[i]]
                    0 <= i < counts.len() ==> {
                        &&& final(rooms[i])@ == left[i]
                        &&& call_ensures(Self::chunk_mut, (cursors[i],), rooms[i])
                    },
                laid(left, counts) == old(src).unread().take(written as int),
            ensures
                written <= old(self).unread().len(),
                written <= old(src).unread().len(),
                src.unread() == old(src).unread().skip(written as int),
                self.unread() == old(self).unread().skip(written as int),
                written == old(self).unread().len() || written == old(src).unread().len(),
                rooms.len() == counts.len(),
                left.len() == counts.len(),
                sum(counts) == written,
                cursors.len() == counts.len(),
                forall|i: int|
                    #![trigger rooms[i]]
                    0 <= i < counts.len() ==> {
                        &&& final(rooms[i])@ == left[i]
                        &&& call_ensures(Self::chunk_mut, (cursors[i],), rooms[i])
                    },
                laid(left, counts) == old(src).unread().take(written as int),
            decreases self.unread().len(),
        {
            let d = self.chunk_mut();
            let ghost room = d;
            if d.len() == 0 {
                break ;
            }
            let s = src.chunk();
            let cnt = if s.len() < d.len() {
                s.len()
            } else {
                d.len()
            };
            if cnt == 0 {
                break ;
            }
            copy_prefix(d, s, cnt);
            proof {
                let after = s@.take(cnt as int) + room@.skip(cnt as int);
                let cursor = choose|cursor: &mut Self| #[trigger]
                    call_ensures(Self::chunk_mut, (cursor,), room);
                let more_cursors = cursors.push(cursor);
                let more_rooms = rooms.push(room);
                let more = counts.push(cnt);
                let more_left = left.push(after);
                assert(more.drop_last() =~= counts);
                assert(more_left.drop_last() =~= left);
                assert(after.take(cnt as int) =~= s@.take(cnt as int));
                assert(old(src).unread().take(written as int) + s@.take(cnt as int) =~= old(
                    src,
                ).unread().take(written + cnt));
                assert forall|i: int|
                    #![trigger more_rooms[i]]
                    0 <= i < more.len() implies {
                    &&& final(more_rooms[i])@ == more_left[i]
                    &&& call_ensures(Self::chunk_mut, (more_cursors[i],), more_rooms[i])
                } by {
                    if i < counts.len() {
                        assert(more_rooms[i] == rooms[i]);
                        assert(more_left[i] == left[i]);
                        assert(more_cursors[i] == cursors[i]);
                    } else {
                        assert(more_rooms[i] == room);
                        assert(more_cursors[i] == cursor);
                    }
                }
                cursors = more_cursors;
                rooms = more_rooms;
                counts = more;
                left = more_left;
            }
            src.advance(cnt);
            self.advance(cnt);
            written += cnt;
        }
        written
    }
}

/// A `Buf` adapter which implements `Read` for the inner value.
pub struct Reader<B>(B);

impl<B> Reader<B> {
    /// The buffer that the adapter reads from.
    pub closed spec fn inner(self) -> B {
        self.0
    }
}

impl<B: Buf> Read for Reader<B> {
    /// `bytes` stand at the buffer's cursor, and `post` has moved past them.
    open spec fn yields(&self, bytes: Seq<u8>, post: &Self) -> bool {
        bytes.is_prefix_of(self.inner().unread()) && post.inner().unread()
            == self.inner().unread().skip(bytes.len() as int)
    }

    proof fn yields_nothing(&self) {
        assert(self.inner().unread().skip(0) =~= self.inner().unread());
    }

    proof fn yields_in_turn(&self, first: Seq<u8>, mid: &Self, second: Seq<u8>, post: &Self) {
        let all = self.inner().unread();
        assert((first + second).is_prefix_of(all)) by {
        }
        assert(post.inner().unread() =~= all.skip((first + second).len() as int));
    }

    /// Copies bytes from the buffer's cursor into `buf` until one of the two
    /// is at its end, and moves the cursor past them.
    fn read(&mut self, buf: &mut [u8]) -> (r: Result<usize, AxError>)
        ensures
            r matches Ok(n) && n == vstd::math::min(
                old(buf)@.len() as int,
                old(self).inner().unread().len() as int,
            ),
            r matches Ok(n) ==> {
                &&& final(buf)@ == old(self).inner().unread().take(n as int) + old(buf)@.skip(
                    n as int,
                )
                &&& final(self).inner().unread() == old(self).inner().unread().skip(n as int)
            },
    {
        assert(buf@.len() == buf.len());
        let mut room: &mut [u8] = buf;
        let n = room.put(&mut self.0);
        Ok(n)
    }
}

/// A `BufMut` adapter which implements `Write` for the inner value.
pub struct Writer<B>(B);

impl<B> Writer<B> {
    /// The buffer that the adapter writes to.
    pub closed spec fn inner(self) -> B {
        self.0
    }
}

impl<B: BufMut> Write for Writer<B> {
    /// The buffer has room for `bytes`, and `post` has moved past that room.
    open spec fn accepts(&self, bytes: Seq<u8>, post: &Self) -> bool {
        bytes.len() <= self.inner().unread().len() && post.inner().unread()
            == self.inner().unread().skip(bytes.len() as int)
    }

    proof fn accepts_nothing(&self) {
        assert(self.inner().unread().skip(0) =~= self.inner().unread());
    }

    proof fn accepts_in_turn(&self, first: Seq<u8>, mid: &Self, second: Seq<u8>, post: &Self) {
        assert(post.inner().unread() =~= self.inner().unread().skip(
            (first + second).len() as int,
        ));
    }

    /// Copies bytes of `buf` to the buffer's cursor until one of the two is at
    /// its end, and moves the cursor past them.
    fn write(&mut self, buf: &[u8]) -> (r: Result<usize, AxError>)
        ensures
            r matches Ok(n) && n == vstd::math::min(
                buf@.len() as int,
                old(self).inner().unread().len() as int,
            ),
            r matches Ok(n) ==> final(self).inner().unread() == old(self).inner().unread().skip(
                n as int,
            ),
    {
        assert(buf@.len() == buf.len());
        let mut src: &[u8] = buf;
        let n = self.0.put(&mut src);
        Ok(n)
    }

    /// Does nothing: the adapter holds nothing back.
    fn flush(&mut self) -> (r: Result<(), AxError>)
        ensures
            r is Ok,
            *final(self) == *old(self),
    {
        proof {
            (*self).accepts_nothing();
        }
        Ok(())
    }
}

} // verus!
