use kleestor::order::Order;
use kleestor::record::bytestream::{compare_bytes, shared_prefix_len, ByteStream};
use std::cmp::Ordering;

#[test]
fn ensures_eq() {
    for len in 0..=32 {
        let mut left = Vec::<u8>::new();
        let mut right = Vec::<u8>::new();
        for i in 0..len {
            left.push(i + 0x23);
            right.push(i + 0x23);
        }
        let left = ByteStream::from_vec(left);
        let right = ByteStream::from_vec(right);
        assert!(left == right, "vec[len={len}] == vec[len={len}]");
        assert!(left <= right, "vec[len={len}] <= vec[len={len}]");
        assert!(left >= right, "vec[len={len}] >= vec[len={len}]");
        assert!(!(left != right), "vec[len={len}] ! == vec[len={len}]");
        assert!(!(left < right), "vec[len={len}] ! < vec[len={len}]");
        assert!(!(left > right), "vec[len={len}] ! > vec[len={len}]");
    }
}

/// Tests inequality between two strings of an equal length.
#[test]
fn ensures_ne_eqlen() {
    for len in 1..=32 {
        for err_pos in 0..len {
            let mut left = Vec::<u8>::new();
            let mut right = Vec::<u8>::new();
            for i in 0..len {
                left.push(i + 0x23);
                if i != err_pos {
                } else {
                    right.push(i + 0x23);
                    right.push(i + 0xaf);
                }
            }
            let left = ByteStream::from_vec(left);
            let right = ByteStream::from_vec(right);
            assert!(left < right, "vec[len={len},err_pos={err_pos}] @ <");
            assert!(left <= right, "vec[len={len},err_pos={err_pos}] @ <=");
            assert!(left != right, "vec[len={len},err_pos={err_pos}] @ !=");
            assert!(!(left > right), "vec[len={len},err_pos={err_pos}] @ ! >");
            assert!(!(left >= right), "vec[len={len},err_pos={err_pos}] @ ! >=");
            assert!(!(left == right), "vec[len={len},err_pos={err_pos}] @ ! ==");
        }
    }
}

/// Tests inequality between two strings of the same prefix, but unequal
/// lengths.
#[test]
fn ensures_ne_nelen() {
    for len in 0..=32 {
        let mut left = Vec::<u8>::new();
        let mut right = Vec::<u8>::new();
        for i in 0..len {
            left.push(i + 0x23);
            right.push(i + 0x23);
        }
        right.push(0x00);
        let left = ByteStream::from_vec(left);
        let right = ByteStream::from_vec(right);
        assert!(left < right, "vec[len={len}] @ <");
        assert!(!(left > right), "vec[len={len}] @ ! >");
    }
}

fn sample(len: usize, seed: u8) -> Vec<u8> {
    (0..len).map(|i| (i as u8).wrapping_mul(7).wrapping_add(seed)).collect()
}

#[test]
fn one_differing_byte_decides_at_every_position() {
    for len in 1..=70_usize {
        for pos in 0..len {
            let left = sample(len, 3);
            let mut right = left.clone();
            right[pos] = right[pos].wrapping_add(1);
            let expect = left[pos].cmp(&right[pos]);
            assert_eq!(ByteStream::ref_2_partial_cmp(&left, &right), Some(expect));
            assert_eq!(ByteStream::ref_2_partial_cmp(&right, &left), Some(expect.reverse()));
            assert!(!ByteStream::ref_2_eq(&left, &right));
            assert_eq!(shared_prefix_len(&left, &right), pos);
        }
    }
}

#[test]
fn bytes_compare_as_unsigned() {
    assert_eq!(compare_bytes(&[0x7f], &[0x80]), Order::Less);
    assert_eq!(compare_bytes(&[0xff], &[0x00, 0x00]), Order::Greater);
    assert_eq!(ByteStream::ref_2_partial_cmp(&[0x80], &[0x7f]), Some(Ordering::Greater));
}

#[test]
fn a_strict_prefix_is_less_than_its_extension() {
    for len in 0..=70_usize {
        let long = sample(len + 1, 9);
        let short = &long[..len];
        assert_eq!(compare_bytes(short, &long), Order::Less);
        assert_eq!(compare_bytes(&long, short), Order::Greater);
        assert!(!ByteStream::ref_2_eq(short, &long));
        assert_eq!(shared_prefix_len(short, &long), len);
    }
}

#[test]
fn comparison_agrees_with_the_standard_order_on_slices() {
    let mut strings: Vec<Vec<u8>> = Vec::new();
    for len in [0_usize, 1, 2, 15, 16, 17, 31, 32, 33, 48] {
        for seed in [0_u8, 1, 200] {
            strings.push(sample(len, seed));
        }
    }
    for a in &strings {
        for b in &strings {
            assert_eq!(ByteStream::ref_2_partial_cmp(a, b), Some(a.cmp(b)));
            assert_eq!(ByteStream::ref_2_eq(a, b), a == b);
            let (x, y) = (ByteStream::from_slice(a), ByteStream::from_slice(b));
            assert_eq!(x.ref_eq(y.as_ref()), a == b);
            assert_eq!(x.ref_partial_cmp(y.as_ref()), Some(a.cmp(b)));
        }
    }
}

#[test]
fn comparison_is_reflexive_antisymmetric_and_transitive_on_samples() {
    let strings: Vec<Vec<u8>> = vec![
        vec![],
        vec![0],
        vec![0, 0],
        vec![0, 1],
        vec![1],
        sample(16, 0),
        sample(17, 0),
        sample(40, 0),
        sample(40, 1),
    ];
    for a in &strings {
        assert_eq!(compare_bytes(a, a), Order::Equal);
        for b in &strings {
            let ab = compare_bytes(a, b);
            let ba = compare_bytes(b, a);
            if ab != Order::Greater && ba != Order::Greater {
                assert_eq!(a, b);
            }
            for c in &strings {
                if ab != Order::Greater && compare_bytes(b, c) != Order::Greater {
                    assert!(compare_bytes(a, c) != Order::Greater);
                }
            }
        }
    }
}

#[test]
fn constructors_keep_the_bytes() {
    let s = ByteStream::from_vec(vec![1, 2, 3]);
    assert_eq!(s.as_ref(), &[1, 2, 3]);
    assert_eq!(s.len(), 3);
    let t = ByteStream::from_slice(&[9, 8]);
    assert_eq!(t.as_ref(), &[9, 8]);
    assert_eq!(t.clone().as_ref(), &[9, 8]);
    assert_eq!(ByteStream::new().len(), 0);
}
