use axio::buf::{Buf, BufMut};

#[test]
fn test_buf() {
    let mut buf: &[u8] = b"hello world";
    assert_eq!(buf.remaining(), 11);
    assert_eq!(buf.chunk(), b"hello world");
    buf.advance(6);
    assert_eq!(buf.remaining(), 5);
    assert_eq!(buf.chunk(), b"world");
}

#[test]
fn test_put() {
    let mut buf = [0; 5];
    let mut src: &[u8] = b"hello world";
    let written = buf.as_mut_slice().put(&mut src);
    assert_eq!(written, 5);
    assert_eq!(&buf[..written], b"hello");
    assert_eq!(src.remaining(), 6);
}
