use pdgraph::num::DataType::{N16, N32, N64, N8};
use pdgraph::num::{DataType, Flags, Integer};

#[test]
fn flags() {
    assert_eq!(Integer(N8, 150).flagged_add(Integer(N8, 100)).1,
        Flags { zero: false, sign: true, overflow: false });

    assert_eq!(Integer(N8, -56i8 as u64).flagged_add(Integer(N8, 56)).1,
        Flags { zero: true, sign: false, overflow: false });

    assert_eq!(Integer(N8, 100).flagged_add(Integer(N8, 100)).1,
        Flags { zero: false, sign: true, overflow: true });

    assert_eq!(Integer(N8, 20).flagged_add(Integer(N8, 40)).1,
        Flags { zero: false, sign: false, overflow: false });

    assert_eq!(Integer(N32, 3).flagged_sub(Integer(N32, 4)).1,
        Flags { zero: false, sign: true, overflow: false });

    assert_eq!(Integer(N8, 130).flagged_sub(Integer(N8, 10)).1,
        Flags { zero: false, sign: false, overflow: true });
}

#[test]
fn bytes() {
    assert_eq!(Integer(N8, 1).to_bytes(), vec![1]);
    assert_eq!(Integer(N16, 0xabef).to_bytes(), vec![0xef, 0xab]);
}

#[test]
fn bytes_wider_types() {
    assert_eq!(Integer(N32, 0x1234_5678).to_bytes(), vec![0x78, 0x56, 0x34, 0x12]);
    assert_eq!(
        Integer(N64, 0x0102_0304_0506_0708).to_bytes(),
        vec![8, 7, 6, 5, 4, 3, 2, 1]
    );
    // Bits above the width are not written.
    assert_eq!(Integer(N16, 0xffff_1234).to_bytes(), vec![0x34, 0x12]);
}

#[test]
fn from_bytes_reads_little_endian() {
    assert_eq!(Integer::from_bytes(&[0xef, 0xab], N16).1, 0xabef);
    assert_eq!(Integer::from_bytes(&[0x78, 0x56, 0x34, 0x12], N32).1, 0x1234_5678);
    assert_eq!(Integer::from_bytes(&[8, 7, 6, 5, 4, 3, 2, 1], N64).1, 0x0102_0304_0506_0708);
    assert_eq!(Integer::from_bytes(&[0x80], N8).1, 0x80);
}

#[test]
fn bytes_round_trip() {
    let values: [(DataType, u64); 6] = [
        (N8, 0xf0),
        (N16, 0x8001),
        (N32, 0xdead_beef),
        (N64, u64::MAX),
        (N64, 0),
        (N16, 0x1_0203),
    ];
    for (t, v) in values {
        let x = Integer(t, v);
        let bytes = x.to_bytes();
        assert_eq!(bytes.len(), t.bytes());
        let y = Integer::from_bytes(&bytes, t);
        assert!(x == y);
        assert!(x.equal(y));
    }
}

#[test]
fn cast_extends_and_truncates() {
    assert_eq!(Integer(N8, 0xf0).cast(N16, true).1, 0xfff0);
    assert_eq!(Integer(N8, 0xf0).cast(N16, false).1, 0x00f0);
    assert_eq!(Integer(N8, 0x70).cast(N32, true).1, 0x70);
    assert_eq!(Integer(N16, 0x8000).cast(N64, true).1, 0xffff_ffff_ffff_8000);
    assert_eq!(Integer(N32, 0x1234_5678).cast(N8, true).1, 0x78);
    assert_eq!(Integer(N32, 0x1234_5678).cast(N8, false).1, 0x78);
    assert_eq!(Integer(N64, 0xffff_ffff_8000_00ff).cast(N16, true).1, 0x00ff);
    assert_eq!(Integer(N16, 0x1234).cast(N16, true).0, N16);
}

#[test]
fn wrapping_arithmetic() {
    assert_eq!(Integer(N8, 200).add(Integer(N8, 100)).1, 44);
    assert_eq!(Integer(N8, 3).sub(Integer(N8, 4)).1, 0xff);
    assert_eq!(Integer(N16, 0x100).mul(Integer(N16, 0x100)).1, 0);
    assert_eq!(Integer(N64, u64::MAX).add(Integer(N64, 2)).1, 1);
    assert_eq!(Integer(N64, u64::MAX).mul(Integer(N64, u64::MAX)).1, 1);
    assert_eq!(Integer(N8, 0xf0).bitand(Integer(N8, 0x3c)).1, 0x30);
    assert_eq!(Integer(N8, 0xf0).bitor(Integer(N8, 0x0f)).1, 0xff);
    assert_eq!(Integer(N8, 0x0f).bitnot().1, 0xf0);
    assert_eq!(Integer(N32, 0).bitnot().1, 0xffff_ffff);
}

#[test]
fn comparisons_depend_on_signedness() {
    let a = Integer(N8, 0xff);
    let b = Integer(N8, 1);
    assert!(a.greater_than(b, false));
    assert!(a.less_than(b, true));
    assert!(a.less_equal(b, true));
    assert!(!a.greater_equal(b, true));
    assert!(a.greater_equal(a, true));
    assert!(Integer(N8, 0x1ff).equal(Integer(N8, 0xff)));
    assert!(!Integer(N16, 0x1ff).equal(Integer(N16, 0xff)));
}

#[test]
fn flags_of_other_operations() {
    assert_eq!(Integer(N8, 0x40).flagged_mul(Integer(N8, 4)).1,
        Flags { zero: false, sign: false, overflow: true });
    assert_eq!(Integer(N8, 0).flagged_mul(Integer(N8, 4)).1,
        Flags { zero: false, sign: false, overflow: false });
    assert_eq!(Integer(N8, 0xff).flagged_mul(Integer(N8, 0xff)).1,
        Flags { zero: false, sign: false, overflow: false });
    assert_eq!(Integer(N8, 0xf0).flagged_and(Integer(N8, 0x0f)).1,
        Flags { zero: true, sign: false, overflow: false });
    assert_eq!(Integer(N8, 0x80).flagged_or(Integer(N8, 0x01)).1,
        Flags { zero: false, sign: true, overflow: false });
    let (sum, f) = Integer(N64, i64::MAX as u64).flagged_add(Integer(N64, 1));
    assert_eq!(sum.1, 0x8000_0000_0000_0000);
    assert_eq!(f, Flags { zero: false, sign: true, overflow: true });
}

#[test]
fn constructors_and_type_info() {
    let p = Integer::from_ptr(0x4000);
    assert_eq!(p.0, N64);
    assert_eq!(p.1, 0x4000);
    assert_eq!(Integer::from_bool(true, N8).1, 1);
    assert_eq!(Integer::from_bool(false, N32).1, 0);
    assert_eq!(Integer::from_bool(false, N32).0, N32);
    assert_eq!(N8.name(), "byte");
    assert_eq!(N16.name(), "word");
    assert_eq!(N32.name(), "dword");
    assert_eq!(N64.name(), "qword");
    assert_eq!(N16.tag(), "n16");
    assert_eq!(N32.bytes(), 4);
    assert_eq!(N64.bits(), 64);
    assert_eq!(N8.bits(), 8);
}
