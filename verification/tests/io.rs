use axerrno::AxError;
use axio::buf::{Buf, BufMut};
use axio::{Read, Write};

#[test]
fn a_slice_reads_what_fits() {
    let mut src: &[u8] = b"hello world";
    let mut buf = [0u8; 5];
    assert_eq!(src.read(&mut buf).unwrap(), 5);
    assert_eq!(&buf, b"hello");
    assert_eq!(src, b" world");
    let mut big = [b'.'; 8];
    assert_eq!(src.read(&mut big).unwrap(), 6);
    assert_eq!(&big, b" world..");
    assert_eq!(src, b"");
    assert_eq!(src.read(&mut big).unwrap(), 0);
    assert_eq!(&big, b" world..");
}

#[test]
fn a_slice_reads_a_single_byte() {
    let mut src: &[u8] = b"xy";
    let mut one = [0u8; 1];
    assert_eq!(src.read(&mut one).unwrap(), 1);
    assert_eq!(one, [b'x']);
    src.read_exact(&mut one).unwrap();
    assert_eq!(one, [b'y']);
    assert_eq!(src.read(&mut one).unwrap(), 0);
}

#[test]
fn read_exact_fills_the_buffer_or_fails() {
    let mut src: &[u8] = b"abcdef";
    let mut four = [0u8; 4];
    src.read_exact(&mut four).unwrap();
    assert_eq!(&four, b"abcd");
    assert_eq!(src, b"ef");
    let err = src.read_exact(&mut four).unwrap_err();
    assert_eq!(err, AxError::Io);
    assert_eq!(err.code(), 20);
    assert_eq!(&four, b"abcd");
    assert_eq!(src, b"ef");
    let mut none = [0u8; 0];
    src.read_exact(&mut none).unwrap();
    assert_eq!(src, b"ef");
}

#[test]
fn read_to_end_takes_the_whole_slice() {
    let mut src: &[u8] = b"tail";
    let mut out = vec![b'>'];
    assert_eq!(src.read_to_end(&mut out).unwrap(), 4);
    assert_eq!(out, b">tail");
    assert_eq!(src, b"");
    assert_eq!(src.read_to_end(&mut out).unwrap(), 0);
    assert_eq!(out, b">tail");
}

#[test]
fn a_mutable_slice_takes_what_fits() {
    let mut room = [0u8; 8];
    {
        let mut dst: &mut [u8] = &mut room;
        assert_eq!(dst.write(b"hello").unwrap(), 5);
        assert_eq!(dst.len(), 3);
        assert_eq!(dst.write(b"world").unwrap(), 3);
        assert_eq!(dst.len(), 0);
        assert_eq!(dst.write(b"!").unwrap(), 0);
        dst.flush().unwrap();
    }
    assert_eq!(&room, b"hellowor");
}

#[test]
fn a_mutable_slice_takes_a_single_byte() {
    let mut room = [0u8; 2];
    {
        let mut dst: &mut [u8] = &mut room;
        assert_eq!(dst.write(b"a").unwrap(), 1);
        assert_eq!(dst.write(b"b").unwrap(), 1);
    }
    assert_eq!(&room, b"ab");
}

#[test]
fn write_all_to_a_slice_that_is_too_short_fails_with_write_zero() {
    let mut room = [0u8; 3];
    {
        let mut dst: &mut [u8] = &mut room;
        let err = dst.write_all(b"abcdef").unwrap_err();
        assert_eq!(err, AxError::WriteZero);
        assert_eq!(err.code(), 43);
    }
    assert_eq!(&room, b"abc");
    let mut dst: &mut [u8] = &mut room;
    dst.write_all(b"xyz").unwrap();
    dst.write_all(b"").unwrap();
    assert_eq!(&room, b"xyz");
}

#[test]
fn put_stops_at_the_shorter_side() {
    let mut room = [b'-'; 8];
    let mut src: &[u8] = b"abc";
    {
        let mut dst: &mut [u8] = &mut room;
        assert_eq!(dst.put(&mut src), 3);
        assert_eq!(dst.remaining(), 5);
        assert_eq!(dst.put(&mut src), 0);
    }
    assert_eq!(src.remaining(), 0);
    assert_eq!(&room, b"abc-----");
    let mut none: &mut [u8] = &mut [];
    let mut more: &[u8] = b"left";
    assert_eq!(none.put(&mut more), 0);
    assert_eq!(more, b"left");
}

#[test]
fn a_mutable_slice_is_a_cursor() {
    let mut room = [1u8, 2, 3, 4];
    let mut dst: &mut [u8] = &mut room;
    assert_eq!(dst.remaining(), 4);
    assert_eq!(dst.chunk(), &[1, 2, 3, 4]);
    dst.chunk_mut()[0] = 9;
    dst.advance(1);
    assert_eq!(dst.chunk(), &[2, 3, 4]);
    dst.advance(3);
    assert_eq!(dst.remaining(), 0);
    assert_eq!(room, [9, 2, 3, 4]);
}

#[test]
fn read_with_sums_the_counts() {
    let mut src: &[u8] = b"abcdefgh";
    let mut seen = Vec::new();
    let total = src
        .read_with(|piece: &[u8]| -> Result<usize, ()> {
            let n = usize::min(3, piece.len());
            seen.extend_from_slice(&piece[..n]);
            Ok(n)
        })
        .unwrap();
    assert_eq!(total, 8);
    assert_eq!(seen, b"abcdefgh");
    assert_eq!(src.remaining(), 0);
}

#[test]
fn read_with_stops_at_zero_and_at_an_error() {
    let mut src: &[u8] = b"abcdefgh";
    let mut calls = 0;
    let total = src
        .read_with(|_piece: &[u8]| -> Result<usize, ()> {
            calls += 1;
            if calls < 3 {
                Ok(2)
            } else {
                Ok(0)
            }
        })
        .unwrap();
    assert_eq!(total, 4);
    assert_eq!(src, b"efgh");
    let mut calls = 0;
    let failed = src.read_with(|_piece: &[u8]| -> Result<usize, &str> {
        calls += 1;
        if calls < 2 {
            Ok(1)
        } else {
            Err("stop")
        }
    });
    assert_eq!(failed, Err("stop"));
    assert_eq!(src, b"fgh");
    let mut empty: &[u8] = b"";
    let untouched = empty.read_with(|_piece: &[u8]| -> Result<usize, ()> { Err(()) });
    assert_eq!(untouched, Ok(0));
}

#[test]
fn fill_with_sums_the_counts() {
    let mut room = [0u8; 7];
    {
        let mut dst: &mut [u8] = &mut room;
        let mut next = b'a';
        let total = BufMut::fill_with(&mut dst, |piece: &mut [u8]| -> Result<usize, ()> {
            if next > b'e' {
                return Ok(0);
            }
            piece[0] = next;
            next += 1;
            Ok(1)
        })
        .unwrap();
        assert_eq!(total, 5);
        assert_eq!(dst.remaining(), 2);
        let failed =
            BufMut::fill_with(&mut dst, |_piece: &mut [u8]| -> Result<usize, u8> { Err(7) });
        assert_eq!(failed, Err(7));
        assert_eq!(dst.remaining(), 2);
    }
    assert_eq!(&room, b"abcde\0\0");
}

#[test]
fn a_reader_reads_from_a_buffer() {
    let src: &[u8] = b"hello world";
    let mut reader = src.reader();
    let mut buf = [0u8; 4];
    assert_eq!(reader.read(&mut buf).unwrap(), 4);
    assert_eq!(&buf, b"hell");
    let mut rest = Vec::new();
    assert_eq!(reader.read_to_end(&mut rest).unwrap(), 7);
    assert_eq!(rest, b"o world");
    assert_eq!(reader.read(&mut buf).unwrap(), 0);
    assert_eq!(reader.read_exact(&mut buf).unwrap_err(), AxError::Io);
}

#[test]
fn read_to_end_reads_in_pieces() {
    let long: Vec<u8> = (0..100u8).collect();
    let mut reader = long.as_slice().reader();
    let mut out = vec![200u8];
    assert_eq!(reader.read_to_end(&mut out).unwrap(), 100);
    assert_eq!(out[0], 200);
    assert_eq!(&out[1..], long.as_slice());
}

#[test]
fn read_exact_through_a_reader_fills_the_buffer() {
    let src: &[u8] = b"0123456789";
    let mut reader = src.reader();
    let mut six = [0u8; 6];
    reader.read_exact(&mut six).unwrap();
    assert_eq!(&six, b"012345");
    let mut four = [0u8; 4];
    reader.read_exact(&mut four).unwrap();
    assert_eq!(&four, b"6789");
}

#[test]
fn a_writer_writes_to_a_buffer() {
    let mut room = [b'.'; 6];
    {
        let dst: &mut [u8] = &mut room;
        let mut writer = dst.writer();
        assert_eq!(writer.write(b"abcd").unwrap(), 4);
        writer.flush().unwrap();
        assert_eq!(writer.write(b"efgh").unwrap(), 2);
        assert_eq!(writer.write(b"ij").unwrap(), 0);
        assert_eq!(writer.write_all(b"k").unwrap_err(), AxError::WriteZero);
    }
    assert_eq!(&room, b"abcdef");
}

#[test]
fn a_vector_takes_everything() {
    let mut sink = vec![1u8];
    assert_eq!(sink.write(&[2, 3]).unwrap(), 2);
    sink.write_all(&[4, 5, 6]).unwrap();
    sink.flush().unwrap();
    assert_eq!(sink, [1, 2, 3, 4, 5, 6]);
}

#[test]
fn references_forward_to_what_they_point_at() {
    let mut src: &[u8] = b"forward";
    let mut buf = [0u8; 3];
    {
        let mut by_ref = &mut src;
        assert_eq!(Read::read(&mut by_ref, &mut buf).unwrap(), 3);
        Read::read_exact(&mut by_ref, &mut buf).unwrap();
        let mut rest = Vec::new();
        assert_eq!(Read::read_to_end(&mut by_ref, &mut rest).unwrap(), 1);
        assert_eq!(rest, b"d");
    }
    assert_eq!(&buf, b"war");
    assert_eq!(src, b"");
    let mut sink = Vec::new();
    {
        let mut by_ref = &mut sink;
        assert_eq!(Write::write(&mut by_ref, b"ab").unwrap(), 2);
        Write::write_all(&mut by_ref, b"cd").unwrap();
        Write::flush(&mut by_ref).unwrap();
    }
    assert_eq!(sink, b"abcd");
}

#[test]
fn what_is_left_after_a_write_follows_the_answer() {
    let rest: &[u8] = b"abcdef";
    assert_eq!(axio::left_after_write(rest, Ok(2)), Ok(&b"cdef"[..]));
    assert_eq!(axio::left_after_write(rest, Ok(6)), Ok(&b""[..]));
    assert_eq!(axio::left_after_write(rest, Ok(0)), Err(AxError::WriteZero));
    assert_eq!(axio::left_after_write(rest, Err(AxError::BrokenPipe)), Err(AxError::BrokenPipe));
    assert_eq!(axio::left_after_write(rest, Err(AxError::Io)), Err(AxError::Io));
}

#[test]
fn what_is_filled_after_a_read_follows_the_answer() {
    assert_eq!(axio::filled_after_read(3, Ok(4)), Ok(7));
    assert_eq!(axio::filled_after_read(0, Ok(1)), Ok(1));
    assert_eq!(axio::filled_after_read(3, Ok(0)), Err(AxError::Io));
    assert_eq!(axio::filled_after_read(3, Err(AxError::WouldBlock)), Err(AxError::WouldBlock));
}

#[test]
fn what_is_appended_after_a_read_follows_the_answer() {
    let mut buf = vec![1u8, 2];
    assert_eq!(axio::append_read(&mut buf, b"xyz", Ok(2)), Ok(true));
    assert_eq!(buf, [1, 2, b'x', b'y']);
    assert_eq!(axio::append_read(&mut buf, b"xyz", Ok(0)), Ok(false));
    assert_eq!(buf, [1, 2, b'x', b'y']);
    assert_eq!(axio::append_read(&mut buf, b"xyz", Err(AxError::TimedOut)), Err(AxError::TimedOut));
    assert_eq!(buf, [1, 2, b'x', b'y']);
    assert_eq!(axio::append_read(&mut buf, b"xyz", Ok(3)), Ok(true));
    assert_eq!(buf, [1, 2, b'x', b'y', b'x', b'y', b'z']);
}

#[test]
fn read_with_stops_cleanly_when_nothing_is_counted() {
    let mut b: &[u8] = b"abc";
    let mut calls = 0;
    let r = b.read_with(|_| {
        calls += 1;
        Ok::<usize, ()>(0)
    });
    assert_eq!(r, Ok(0));
    assert_eq!(calls, 1);
    assert_eq!(b.remaining(), 3);
}

#[test]
fn read_with_keeps_what_was_counted_before_an_error() {
    let mut b: &[u8] = b"hello world";
    let mut k = 0;
    let r = b.read_with(|_| {
        k += 1;
        if k == 1 {
            Ok(6)
        } else {
            Err(7u8)
        }
    });
    assert_eq!(r, Err(7));
    assert_eq!(k, 2);
    assert_eq!(b.chunk(), b"world");
    let mut c: &[u8] = b"xyz";
    let mut calls = 0;
    let r = c.read_with(|_| {
        calls += 1;
        Err::<usize, u8>(9)
    });
    assert_eq!(r, Err(9));
    assert_eq!(calls, 1);
    assert_eq!(c.remaining(), 3);
}

#[test]
fn fill_with_hands_out_what_is_left_each_time() {
    let mut a = [0u8; 5];
    let mut sizes = Vec::new();
    let r = {
        let mut d: &mut [u8] = &mut a;
        BufMut::fill_with(&mut d, |c: &mut [u8]| {
            sizes.push(c.len());
            let k = c.len().min(2);
            c[..k].fill(7);
            Ok::<usize, ()>(k)
        })
    };
    assert_eq!(r, Ok(5));
    assert_eq!(a, [7, 7, 7, 7, 7]);
    assert_eq!(sizes, [5, 3, 1]);
}
