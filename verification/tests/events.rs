use axio::poll::IoEvents;

#[test]
fn the_bits_are_those_of_poll() {
    assert_eq!(IoEvents::IN, 0x0001);
    assert_eq!(IoEvents::PRI, 0x0002);
    assert_eq!(IoEvents::OUT, 0x0004);
    assert_eq!(IoEvents::ERR, 0x0008);
    assert_eq!(IoEvents::HUP, 0x0010);
    assert_eq!(IoEvents::NVAL, 0x0020);
    assert_eq!(IoEvents::RDNORM, 0x0040);
    assert_eq!(IoEvents::RDBAND, 0x0080);
    assert_eq!(IoEvents::WRNORM, 0x0100);
    assert_eq!(IoEvents::WRBAND, 0x0200);
    assert_eq!(IoEvents::MSG, 0x0400);
    assert_eq!(IoEvents::REMOVE, 0x1000);
    assert_eq!(IoEvents::RDHUP, 0x2000);
    assert_eq!(IoEvents::ALWAYS_POLL, IoEvents::ERR | IoEvents::HUP);
    assert_eq!(IoEvents::ALWAYS_POLL, 0x0018);
    assert_eq!(IoEvents::ALL, 0x37ff);
    assert_eq!(IoEvents::all().bits(), 0x37ff);
    assert_eq!(IoEvents::empty().bits(), 0);
}

#[test]
fn bits_that_stand_for_no_event_are_refused_or_dropped() {
    assert_eq!(IoEvents::from_bits(0x0005).map(|e| e.bits()), Some(0x0005));
    assert_eq!(IoEvents::from_bits(0).map(|e| e.bits()), Some(0));
    assert_eq!(IoEvents::from_bits(0x37ff).map(|e| e.bits()), Some(0x37ff));
    assert!(IoEvents::from_bits(0x0800).is_none());
    assert!(IoEvents::from_bits(0x4001).is_none());
    assert!(IoEvents::from_bits(0xffff).is_none());
    assert_eq!(IoEvents::from_bits_truncate(0xffff).bits(), 0x37ff);
    assert_eq!(IoEvents::from_bits_truncate(0x0801).bits(), 0x0001);
}

#[test]
fn sets_of_events_combine() {
    let read = IoEvents::from_bits_truncate(IoEvents::IN | IoEvents::RDNORM);
    let write = IoEvents::from_bits_truncate(IoEvents::OUT);
    let always = IoEvents::from_bits_truncate(IoEvents::ALWAYS_POLL);
    let interest = read.union(always);
    assert_eq!(interest.bits(), 0x0059);
    assert!(interest.contains(read));
    assert!(interest.contains(always));
    assert!(!interest.contains(write));
    assert!(interest.contains(IoEvents::empty()));
    assert!(interest.intersects(read));
    assert!(!interest.intersects(write));
    assert!(!interest.intersects(IoEvents::empty()));
    assert_eq!(interest.intersection(read).bits(), read.bits());
    assert_eq!(interest.difference(read).bits(), IoEvents::ALWAYS_POLL);
    assert_eq!(read.difference(read).bits(), 0);
    assert!(read.difference(read).is_empty());
    assert!(!read.is_empty());
    assert!(IoEvents::empty().is_empty());
    let copy = interest;
    assert_eq!(copy.bits(), interest.bits());
}
