use plexcryptool::math::modred::modred;

#[test]
fn test_modred() {
    let rel: u64 = 0x1053;
    let pol0: u64 = 0x100001;
    assert_eq!(modred(pol0, rel, false).unwrap(), 0x21e);
    assert_eq!(modred(0xe8a3eb51c73156fd, 0x89e34420532421cc, false).unwrap(), 0x6140af7194157731);
    assert_eq!(modred(0x5a85ec7f1b500672, 0x2d25dc91aaab6ff4, false).unwrap(), 0xce555c4e06d99a);
    assert_eq!(modred(0xa478746c853a06ed, 0x9e099288b8afd5f0, false).unwrap(), 0x3a71e6e43d95d31d);
    assert_eq!(modred(0xd1dd497ffbf09438, 0x7fbfbaa628496279, false).unwrap(), 0x2ea23c33ab6250ca);
    assert_eq!(modred(0xfb4c381f1a65e7eb, 0xd5c0b4b71112728e, false).unwrap(), 0x2e8c8ca80b779565);
    assert_eq!(modred(0x87651817df45df82, 0x42ecbd7a63618cf3, false).unwrap(), 0x2bc62e31986c664);
    assert_eq!(modred(0x79a5e837d0b4c33e, 0x11f, false).unwrap(), 0xe2);
    assert_eq!(modred(0xd442873e9eb2de0e, 0x341, false).unwrap(), 0xcd);
}

#[test]
fn modred_leaves_small_polynomials() {
    assert_eq!(modred(0, 0, false).unwrap(), 0);
    assert_eq!(modred(0, 5, false).unwrap(), 0);
    assert_eq!(modred(5, 5, false).unwrap(), 5);
    assert_eq!(modred(4, 5, false).unwrap(), 4);
    assert_eq!(modred(6, 5, false).unwrap(), 3);
    assert_eq!(modred(0b1011, 0b111, false).unwrap(), 0b101);
    assert_eq!(modred(u64::MAX, 1, false).unwrap(), 1);
    assert_eq!(modred(u64::MAX, u64::MAX, false).unwrap(), u64::MAX);
}
