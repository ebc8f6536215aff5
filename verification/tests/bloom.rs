use kleestor::bloom::fimpl::BloomFilterImpl;
use kleestor::bloom::strategies::sfhash::{mix, sfhash64, SfHash64};
use kleestor::bloom::strategies::siphash::{siphash64, SipHash};
use kleestor::bloom::strategies::xxhash::XxHash;
use kleestor::bloom::{slots_from_digest, BloomFilter, HashStrategy};
use kleestor::record::bytestream::ByteStream;
#[allow(deprecated)]
use std::hash::{Hasher, SipHasher};

#[test]
fn no_false_negatives() {
    // uses the default siphash for testing
    let mut bf = BloomFilterImpl::<SipHash<20, 2>, 20, 2>::new();
    for i in 0..98765 {
        let s = format!("test-string-{i}");
        let s = ByteStream::from_slice(s.as_bytes());
        bf.insert(s.as_ref());
    }
    // test that there are no false negatives
    for i in 0..98765 {
        let s = format!("test-string-{i}");
        let s = ByteStream::from_slice(s.as_bytes());
        let result = bf.query(s.as_ref());
        assert_ne!(result, false);
    }
}

fn sfhash64_signature() -> u32 {
    // hash keys of the form {}, {0}, {0,1}, {0,1,2}, ..., {0,1,2,...,254}
    let mut digest_bytes = Vec::<u8>::new();
    let mut message = Vec::<u8>::new();
    for n in 0..=255 {
        let digest = sfhash64(&message);
        message.push(n as u8);
        // push data in little-endian
        digest_bytes.push(((digest >> 0) & 0xff) as u8);
        digest_bytes.push(((digest >> 8) & 0xff) as u8);
        digest_bytes.push(((digest >> 16) & 0xff) as u8);
        digest_bytes.push(((digest >> 24) & 0xff) as u8);
        digest_bytes.push(((digest >> 32) & 0xff) as u8);
        digest_bytes.push(((digest >> 40) & 0xff) as u8);
        digest_bytes.push(((digest >> 48) & 0xff) as u8);
        digest_bytes.push(((digest >> 56) & 0xff) as u8);
    }
    // hash the generated 2048 bytes into another digest
    let digest = sfhash64(&digest_bytes);
    digest as u32
}

#[test]
fn sfhash64_signature_valid() {
    let sig = sfhash64_signature();
    assert_eq!(sig, 0xf55ec779);
}

#[test]
fn default_filter_finds_every_inserted_key() {
    let mut present = BloomFilter::new();
    for i in 0..98765 {
        present.insert(format!("present-key-{i}").as_bytes());
    }
    for i in 0..98765 {
        assert!(present.query(format!("present-key-{i}").as_bytes()));
    }
    let mut false_positives = 0;
    for i in 0..98765 {
        if present.query(format!("absent-key-{i}").as_bytes()) {
            false_positives += 1;
        }
    }
    println!("false positives: {false_positives} of 98765");
}

#[test]
fn an_empty_filter_holds_nothing() {
    let bf = BloomFilterImpl::<SfHash64<12, 3>, 12, 3>::new();
    assert_eq!(bf.size(), 512);
    assert_eq!(BloomFilterImpl::<SfHash64<12, 3>, 12, 3>::default_size(), 512);
    assert!(bf.as_bytes().iter().all(|b| *b == 0));
    for i in 0..1000 {
        assert!(!bf.query(format!("k{i}").as_bytes()));
    }
}

#[test]
fn default_filter_has_two_mebibytes() {
    assert_eq!(BloomFilter::default_size(), 1 << 21);
    assert_eq!(BloomFilter::new().as_bytes().len(), 1 << 21);
}

#[test]
fn insert_sets_exactly_the_slots_of_the_key() {
    let mut bf = BloomFilterImpl::<SfHash64<10, 4>, 10, 4>::new();
    let key = b"some key";
    bf.insert(key);
    let slots = SfHash64::<10, 4>::hash(key);
    let mut expect = vec![0_u8; 128];
    for slot in slots {
        assert!(slot < 1024);
        expect[(slot >> 3) as usize] |= 1 << (slot & 7);
    }
    assert_eq!(bf.as_bytes(), &expect[..]);
    assert!(bf.query(key));
}

#[test]
fn a_filter_survives_its_bytes() {
    let mut bf = BloomFilterImpl::<SipHash<12, 2>, 12, 2>::new();
    for i in 0..100 {
        bf.insert(format!("key-{i}").as_bytes());
    }
    let copy = BloomFilterImpl::<SipHash<12, 2>, 12, 2>::from_slice(bf.as_bytes());
    assert_eq!(copy.as_bytes(), bf.as_bytes());
    for i in 0..100 {
        assert!(copy.query(format!("key-{i}").as_bytes()));
    }
}

#[test]
fn slots_are_cut_from_the_low_bits_up() {
    let slots: [u32; 2] = slots_from_digest::<24, 2>(0x0123_4567_89ab_cdef);
    assert_eq!(slots, [0xab_cdef, 0x45_6789]);
    let slots: [u32; 2] = slots_from_digest::<32, 2>(0x0123_4567_89ab_cdef);
    assert_eq!(slots, [0x89ab_cdef, 0x0123_4567]);
    let slots: [u32; 8] = slots_from_digest::<8, 8>(0x0123_4567_89ab_cdef);
    assert_eq!(slots, [0xef, 0xcd, 0xab, 0x89, 0x67, 0x45, 0x23, 0x01]);
    let slots: [u32; 3] = slots_from_digest::<3, 3>(0b110_101_011);
    assert_eq!(slots, [0b011, 0b101, 0b110]);
}

#[test]
fn mix_scrambles_a_word() {
    assert_eq!(mix(0), 0);
    let v = 0x0123_4567_89ab_cdef_u64;
    let a = v ^ (v >> 23);
    let b = a.wrapping_mul(0xed27a0e9f72a6d47);
    assert_eq!(mix(v), b ^ (b >> 47));
}

#[test]
fn sfhash_depends_on_every_byte_and_on_the_length() {
    let base: Vec<u8> = (0..100_u8).collect();
    let h = sfhash64(&base);
    for i in 0..base.len() {
        let mut other = base.clone();
        other[i] ^= 1;
        assert_ne!(sfhash64(&other), h, "byte {i}");
    }
    for len in 0..base.len() {
        assert_ne!(sfhash64(&base[..len]), h, "length {len}");
    }
    assert_eq!(SfHash64::<32, 2>::hash(&base), [h as u32, (h >> 32) as u32]);
}

#[test]
#[allow(deprecated)]
fn siphash_strategy_uses_the_standard_hasher_with_a_zero_key() {
    for message in [&b""[..], b"a", b"hello world", &[0_u8; 100]] {
        let mut hasher = SipHasher::new();
        hasher.write(message);
        let expect = hasher.finish();
        assert_eq!(siphash64(message), expect);
        assert_eq!(SipHash::<32, 2>::hash(message), [expect as u32, (expect >> 32) as u32]);
    }
    assert_ne!(siphash64(b"a"), siphash64(b"b"));
}

#[test]
fn xxhash_strategy_gives_the_known_digests() {
    let hello = 2794345569481354659_u64;
    assert_eq!(XxHash::<32, 2>::hash(b"hello"), [hello as u32, (hello >> 32) as u32]);
    let helloworld = 9228181307863624271_u64;
    assert_eq!(
        XxHash::<32, 2>::hash(b"helloworld"),
        [helloworld as u32, (helloworld >> 32) as u32]
    );
    assert_eq!(XxHash::<24, 2>::hash(b"hello"), [
        (hello & 0xff_ffff) as u32,
        ((hello >> 24) & 0xff_ffff) as u32
    ]);
}

#[test]
fn xxhash_filter_has_no_false_negatives() {
    let mut bf = BloomFilterImpl::<XxHash<16, 3>, 16, 3>::new();
    for i in 0..2000 {
        bf.insert(format!("xx-{i}").as_bytes());
    }
    for i in 0..2000 {
        assert!(bf.query(format!("xx-{i}").as_bytes()));
    }
}
