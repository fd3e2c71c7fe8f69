//! A writer that gathers small writes before it passes them on.

use super::DEFAULT_BUF_SIZE;
use crate::{BufWrite, Write};
use axerrno::AxError;
use vstd::prelude::*;

verus! {

/// The `BufWriter<W>` struct adds buffering to any writer.
///
/// The writer owns a store of `DEFAULT_BUF_SIZE` bytes and a position in it.
/// The bytes before the position are the buffered bytes: those that were
/// written to the `BufWriter` and not yet passed on to the sink.
///
/// A `BufWriter` that is dropped passes nothing on: what is buffered then is
/// lost. Call `flush` or `into_inner` before.
pub struct BufWriter<W: Write> {
    inner: W,
    held: Held,
}

/// The store and the position in it.
struct Held {
    pos: usize,
    buf: [u8; DEFAULT_BUF_SIZE],
}

impl Held {
    /// The position never lies beyond the store.
    #[verifier::type_invariant]
    spec fn inv(&self) -> bool {
        self.pos <= DEFAULT_BUF_SIZE
    }
}

/// The number of bytes that a write of `len` bytes puts into the buffer: all
/// of them, or as many as a whole buffer takes.
pub open spec fn taken(len: nat) -> nat {
    if len <= DEFAULT_BUF_SIZE {
        len
    } else {
        DEFAULT_BUF_SIZE as nat
    }
}

/// Whether a write or a skip of `len` bytes makes a writer that holds `pos`
/// bytes pass them on to its sink: they do not fit beside what is held, and
/// something is held.
pub open spec fn passes_on(pos: nat, len: nat) -> bool {
    len > DEFAULT_BUF_SIZE - pos && pos > 0
}

/// The position of a writer that held `pos` bytes after a write or a skip of
/// `len` bytes that succeeds.
pub open spec fn position_after(pos: nat, len: nat) -> nat {
    if len <= DEFAULT_BUF_SIZE - pos {
        pos + len
    } else {
        taken(len)
    }
}

/// The buffered bytes after a write of `bytes` to a writer that has `held`
/// buffered, where the write succeeds.
pub open spec fn buffered_after(held: Seq<u8>, bytes: Seq<u8>) -> Seq<u8> {
    if bytes.len() <= DEFAULT_BUF_SIZE - held.len() {
        held + bytes
    } else {
        bytes.take(taken(bytes.len()) as int)
    }
}

/// `store` with `bytes` laid over it from index `at` on.
pub open spec fn overlay(store: Seq<u8>, at: int, bytes: Seq<u8>) -> Seq<u8> {
    store.take(at) + bytes + store.skip(at + bytes.len())
}

/// Copies the first `n` bytes of `src` into `store`, from index `at` on.
fn store_bytes(store: &mut [u8; DEFAULT_BUF_SIZE], at: usize, src: &[u8], n: usize)
    requires
        at + n <= DEFAULT_BUF_SIZE,
        n <= src@.len(),
    ensures
        final(store)@ == overlay(old(store)@, at as int, src@.take(n as int)),
    no_unwind
{
    let mut i: usize = 0;
    while i < n
        invariant
            i <= n,
            at + n <= DEFAULT_BUF_SIZE,
            n <= src@.len(),
            store@ == overlay(old(store)@, at as int, src@.take(i as int)),
        decreases n - i,
    {
        store[at + i] = src[i];
        i += 1;
    }
}

impl<W: Write> BufWriter<W> {
    /// The sink that buffered bytes are passed on to.
    pub closed spec fn sink(&self) -> W {
        self.inner
    }

    /// The position: the number of buffered bytes.
    pub closed spec fn position(&self) -> nat {
        self.held.pos as nat
    }

    /// All bytes of the store, buffered or not.
    pub closed spec fn store(&self) -> Seq<u8> {
        self.held.buf@
    }

    /// The buffered bytes.
    pub open spec fn buffered(&self) -> Seq<u8> {
        self.store().take(self.position() as int)
    }

    /// Creates a new `BufWriter<W>` with a default buffer capacity (1 KB).
    pub fn new(inner: W) -> (w: BufWriter<W>)
        ensures
            w.sink() == inner,
            w.position() == 0,
            w.store().len() == DEFAULT_BUF_SIZE,
            w.store() == Seq::new(DEFAULT_BUF_SIZE as nat, |i: int| 0u8),
    {
        let w = Self { inner, held: Held { pos: 0, buf: [0u8; DEFAULT_BUF_SIZE] } };
        w
    }

    /// Gets a reference to the underlying writer.
    pub fn get_ref(&self) -> (r: &W)
        ensures
            *r == self.sink(),
    {
        &self.inner
    }

    /// Gets a mutable reference to the underlying writer.
    pub fn get_mut(&mut self) -> (r: &mut W)
        ensures
            *r == old(self).sink(),
            final(self).sink() == *final(r),
            final(self).position() == old(self).position(),
            final(self).store() == old(self).store(),
    {
        &mut self.inner
    }

    /// Returns a reference to the internally buffered data.
    pub fn buffer(&self) -> (r: &[u8])
        ensures
            r@ == self.buffered(),
            r@.len() == self.position(),
            self.position() <= DEFAULT_BUF_SIZE,
            self.store().len() == DEFAULT_BUF_SIZE,
    {
        proof {
            use_type_invariant(&self.held);
        }
        vstd::slice::slice_subrange(self.held.buf.as_slice(), 0, self.held.pos)
    }

    /// Returns the number of bytes the internal buffer can hold at once.
    pub fn capacity(&self) -> (n: usize)
        ensures
            n == DEFAULT_BUF_SIZE,
    {
        DEFAULT_BUF_SIZE
    }

    /// Returns the remaining spare capacity in the internal buffer.
    pub fn spare_capacity(&self) -> (n: usize)
        ensures
            n == DEFAULT_BUF_SIZE - self.position(),
            self.position() <= DEFAULT_BUF_SIZE,
            self.store().len() == DEFAULT_BUF_SIZE,
    {
        proof {
            use_type_invariant(&self.held);
        }
        self.capacity() - self.held.pos
    }

    /// Unwraps this `BufWriter<W>`, returning the underlying writer.
    ///
    /// Any buffered data will be flushed before returning: the buffer is
    /// flushed once, and the sink is handed out if that went well.
    ///
    /// The buffered bytes are handed to the sink's `write_all`. Where that
    /// answers with an error, the error is handed on; else the sink is
    /// handed out as the call has left it.
    pub fn into_inner(self) -> (r: Result<W, AxError>)
        ensures
            self.position() == 0 ==> r == Ok::<W, AxError>(self.sink()),
            self.position() > 0 ==> exists|
                sink: &mut W,
                data: &[u8],
                answer: Result<(), AxError>,
            |
                {
                    &&& *sink == self.sink()
                    &&& data@ == self.buffered()
                    &&& #[trigger] call_ensures(W::write_all, (sink, data), answer)
                    &&& answer is Ok <==> r is Ok
                    &&& r matches Ok(w) ==> *final(sink) == w
                    &&& r matches Err(e) ==> answer matches Err(same) && same == e
                },
            match r {
                Ok(w) => self.position() > 0 ==> self.sink().accepts(self.buffered(), &w),
                Err(_) => self.position() > 0,
            },
    {
        let mut this = self;
        match this.flush_buf() {
            Ok(()) => Ok(this.inner),
            Err(e) => Err(e),
        }
    }

    /// Takes note of what the sink answered when it was handed the buffered
    /// bytes: empties the buffer if the sink took them, keeps them if it
    /// failed, and hands the answer on as it is.
    pub fn emptied(&mut self, answer: Result<(), AxError>) -> (r: Result<(), AxError>)
        ensures
            r == answer,
            final(self).sink() == old(self).sink(),
            final(self).store() == old(self).store(),
            final(self).position() == if answer is Ok {
                0
            } else {
                old(self).position()
            },
    {
        if answer.is_ok() {
            self.held.pos = 0;
        }
        answer
    }

    /// Names the bytes that the sink took in between two states of a writer.
    proof fn lemma_accepts(&self, bytes: Seq<u8>, post: &Self, sent: Seq<u8>)
        requires
            self.sink().accepts(sent, &post.sink()),
            self.buffered() + bytes =~= sent + post.buffered(),
        ensures
            self.accepts(bytes, post),
    {
    }

    /// A writer whose sink has not changed has taken in what it buffered.
    proof fn lemma_buffers(&self, bytes: Seq<u8>, post: &Self)
        requires
            self.sink() == post.sink(),
            self.buffered() + bytes =~= post.buffered(),
        ensures
            self.accepts(bytes, post),
    {
        let none = Seq::<u8>::empty();
        self.sink().accepts_nothing();
        self.lemma_accepts(bytes, post, none);
    }

    /// A writer whose sink took in all that was buffered has taken in what it
    /// buffers now.
    proof fn lemma_passes_on(&self, bytes: Seq<u8>, post: &Self)
        requires
            self.position() == 0 ==> self.sink() == post.sink(),
            self.position() > 0 ==> self.sink().accepts(self.buffered(), &post.sink()),
            bytes =~= post.buffered(),
        ensures
            self.accepts(bytes, post),
    {
        if self.position() == 0 {
            self.lemma_buffers(bytes, post);
        } else {
            self.lemma_accepts(bytes, post, self.buffered());
        }
    }
}

impl<W: Write> Write for BufWriter<W> {
    /// The bytes that were buffered, followed by `bytes`, are what the sink
    /// has taken in since, followed by the bytes that are buffered now.
    open spec fn accepts(&self, bytes: Seq<u8>, post: &Self) -> bool {
        exists|sent: Seq<u8>| #[trigger]
            self.sink().accepts(sent, &post.sink()) && self.buffered() + bytes == sent
                + post.buffered()
    }

    proof fn accepts_nothing(&self) {
        self.lemma_buffers(Seq::empty(), self);
    }

    proof fn accepts_in_turn(&self, first: Seq<u8>, mid: &Self, second: Seq<u8>, post: &Self) {
        let sent1 = choose|sent: Seq<u8>| #[trigger]
            self.sink().accepts(sent, &mid.sink()) && self.buffered() + first == sent
                + mid.buffered();
        let sent2 = choose|sent: Seq<u8>| #[trigger]
            mid.sink().accepts(sent, &post.sink()) && mid.buffered() + second == sent
                + post.buffered();
        self.sink().accepts_in_turn(sent1, &mid.sink(), sent2, &post.sink());
        assert(self.buffered() + (first + second) =~= (self.buffered() + first) + second);
        assert((sent1 + mid.buffered()) + second =~= sent1 + (mid.buffered() + second));
        assert(sent1 + (sent2 + post.buffered()) =~= (sent1 + sent2) + post.buffered());
    }

    /// Writes a buffer into this writer, returning how many bytes were written.
    ///
    /// If `buf` fits beside what is buffered, it is buffered whole and the
    /// sink is not touched. Else the buffer is flushed first, and then as much
    /// of `buf` as a whole buffer takes is buffered. If that flush fails, the
    /// writer is left as it was but for what the sink did. The flush succeeds
    /// or fails as the sink's `write_all` answers for the buffered bytes, and
    /// its error is handed on.
    fn write(&mut self, buf: &[u8]) -> (r: Result<usize, AxError>)
        ensures
            final(self).position() <= DEFAULT_BUF_SIZE,
            !passes_on(old(self).position(), buf@.len()) ==> r is Ok,
            passes_on(old(self).position(), buf@.len()) ==> exists|
                sink: &mut W,
                data: &[u8],
                answer: Result<(), AxError>,
            |
                {
                    &&& *sink == old(self).sink()
                    &&& *final(sink) == final(self).sink()
                    &&& data@ == old(self).buffered()
                    &&& #[trigger] call_ensures(W::write_all, (sink, data), answer)
                    &&& answer is Ok <==> r is Ok
                    &&& r matches Err(e) ==> answer matches Err(same) && same == e
                },
            match r {
                Ok(n) => {
                    &&& n == taken(buf@.len())
                    &&& final(self).buffered() == buffered_after(old(self).buffered(), buf@)
                    &&& final(self).position() == position_after(old(self).position(), buf@.len())
                    &&& final(self).store() == overlay(
                        old(self).store(),
                        final(self).position() - n,
                        buf@.take(n as int),
                    )
                    &&& if passes_on(old(self).position(), buf@.len()) {
                        old(self).sink().accepts(old(self).buffered(), &final(self).sink())
                    } else {
                        final(self).sink() == old(self).sink()
                    }
                },
                Err(_) => {
                    &&& passes_on(old(self).position(), buf@.len())
                    &&& final(self).position() == old(self).position()
                    &&& final(self).store() == old(self).store()
                },
            },
    {
        let ghost pre = *self;
        let fits = buf.len() <= self.spare_capacity();
        if !fits {
            match self.flush_buf() {
                Ok(()) => {},
                Err(e) => {
                    return Err(e);
                },
            }
        }
        let spare = self.spare_capacity();
        let written = if buf.len() < spare {
            buf.len()
        } else {
            spare
        };
        store_bytes(&mut self.held.buf, self.held.pos, buf, written);
        self.held.pos += written;
        proof {
            if fits {
                assert(buf@.take(written as int) =~= buf@);
                pre.lemma_buffers(buf@, &*self);
            } else {
                pre.lemma_passes_on(buf@.take(written as int), &*self);
            }
        }
        Ok(written)
    }

    /// Flushes this writer, ensuring that all intermediately buffered contents
    /// reach their destination.
    ///
    /// The buffer is flushed, and if that went well the sink is flushed.
    ///
    /// Where something is buffered, it is handed to the sink's `write_all`
    /// first. If that answers with an error, the error is handed on, the
    /// buffer is kept and the sink is not flushed. Else the answer is what
    /// the sink's `flush` answers then.
    fn flush(&mut self) -> (r: Result<(), AxError>)
        ensures
            final(self).position() <= DEFAULT_BUF_SIZE,
            final(self).store() == old(self).store(),
            match r {
                Ok(()) => {
                    &&& final(self).position() == 0
                    &&& old(self).sink().accepts(old(self).buffered(), &final(self).sink())
                },
                Err(_) => final(self).position() == 0 || final(self).position() == old(
                    self,
                ).position(),
            },
            old(self).position() == 0 ==> exists|flushed: &mut W|
                {
                    &&& *flushed == old(self).sink()
                    &&& *final(flushed) == final(self).sink()
                    &&& #[trigger] call_ensures(W::flush, (flushed,), r)
                },
            old(self).position() > 0 ==> exists|
                sink: &mut W,
                data: &[u8],
                answer: Result<(), AxError>,
            |
                {
                    &&& *sink == old(self).sink()
                    &&& data@ == old(self).buffered()
                    &&& #[trigger] call_ensures(W::write_all, (sink, data), answer)
                    &&& answer matches Err(same) ==> {
                        &&& r matches Err(e) && e == same
                        &&& final(self).position() == old(self).position()
                        &&& final(self).sink() == *final(sink)
                    }
                    &&& answer is Ok ==> final(self).position() == 0 && exists|flushed: &mut W|
                        {
                            &&& *flushed == *final(sink)
                            &&& *final(flushed) == final(self).sink()
                            &&& #[trigger] call_ensures(W::flush, (flushed,), r)
                        }
                },
    {
        let ghost pre = *self;
        match self.flush_buf() {
            Ok(()) => {},
            Err(e) => {
                return Err(e);
            },
        }
        let ghost mid = *self;
        let r = self.inner.flush();
        proof {
            if r is Ok {
                let none = Seq::<u8>::empty();
                if pre.position() > 0 {
                    pre.sink().accepts_in_turn(pre.buffered(), &mid.sink(), none, &self.sink());
                }
                pre.lemma_accepts(none, &*self, pre.buffered());
            }
        }
        r
    }
}

impl<W: Write> BufWrite for BufWriter<W> {
    /// Flushes the internal buffer to the underlying writer.
    ///
    /// With nothing buffered, nothing is done. Else all buffered bytes are
    /// written to the sink, and the buffer is emptied if the sink took them.
    /// If the sink fails, the buffered bytes stay buffered.
    ///
    /// The answer is what the sink's `write_all` answers for the buffered
    /// bytes, and the sink is left as that call leaves it.
    fn flush_buf(&mut self) -> (r: Result<(), AxError>)
        ensures
            final(self).position() <= DEFAULT_BUF_SIZE,
            final(self).store() == old(self).store(),
            old(self).position() > 0 ==> exists|sink: &mut W, data: &[u8]|
                {
                    &&& *sink == old(self).sink()
                    &&& *final(sink) == final(self).sink()
                    &&& data@ == old(self).buffered()
                    &&& #[trigger] call_ensures(W::write_all, (sink, data), r)
                },
            old(self).position() == 0 ==> r is Ok,
            match r {
                Ok(()) => {
                    &&& final(self).position() == 0
                    &&& if old(self).position() > 0 {
                        old(self).sink().accepts(old(self).buffered(), &final(self).sink())
                    } else {
                        final(self).sink() == old(self).sink()
                    }
                },
                Err(_) => {
                    &&& old(self).position() > 0
                    &&& final(self).position() == old(self).position()
                },
            },
    {
        let ghost pre = *self;
        proof {
            use_type_invariant(&self.held);
        }
        let r = if self.held.pos > 0 {
            let data = vstd::slice::slice_subrange(self.held.buf.as_slice(), 0, self.held.pos);
            let answer = self.inner.write_all(data);
            self.emptied(answer)
        } else {
            Ok(())
        };
        proof {
            if r is Ok {
                pre.lemma_passes_on(Seq::empty(), &*self);
            }
        }
        r
    }

    /// Skips a number of bytes in the internal buffer, flushing if necessary.
    ///
    /// The position moves on by `len` if that many bytes are spare. Else the
    /// buffer is flushed first, and the position is `len` or the capacity,
    /// whichever is less. The store is left as it is. The flush succeeds or
    /// fails as the sink's `write_all` answers for the buffered bytes, and its
    /// error is handed on.
    fn skip_some(&mut self, len: usize) -> (r: Result<(), AxError>)
        ensures
            final(self).position() <= DEFAULT_BUF_SIZE,
            final(self).store() == old(self).store(),
            !passes_on(old(self).position(), len as nat) ==> r is Ok,
            passes_on(old(self).position(), len as nat) ==> exists|
                sink: &mut W,
                data: &[u8],
                answer: Result<(), AxError>,
            |
                {
                    &&& *sink == old(self).sink()
                    &&& *final(sink) == final(self).sink()
                    &&& data@ == old(self).buffered()
                    &&& #[trigger] call_ensures(W::write_all, (sink, data), answer)
                    &&& answer is Ok <==> r is Ok
                    &&& r matches Err(e) ==> answer matches Err(same) && same == e
                },
            match r {
                Ok(()) => {
                    &&& final(self).position() == position_after(old(self).position(), len as nat)
                    &&& if passes_on(old(self).position(), len as nat) {
                        old(self).sink().accepts(old(self).buffered(), &final(self).sink())
                    } else {
                        final(self).sink() == old(self).sink()
                    }
                },
                Err(_) => {
                    &&& passes_on(old(self).position(), len as nat)
                    &&& final(self).position() == old(self).position()
                },
            },
    {
        let ghost pre = *self;
        let mut spare = self.spare_capacity();
        let fits = len <= spare;
        if !fits {
            match self.flush_buf() {
                Ok(()) => {},
                Err(e) => {
                    return Err(e);
                },
            }
            spare = self.spare_capacity();
        }
        let step = if len < spare {
            len
        } else {
            spare
        };
        self.held.pos += step;
        proof {
            if fits {
                let pad = pre.store().subrange(
                    pre.position() as int,
                    pre.position() + step,
                );
                pre.lemma_buffers(pad, &*self);
            } else {
                let pad = self.buffered();
                pre.lemma_passes_on(pad, &*self);
            }
        }
        Ok(())
    }
}

} // verus!
