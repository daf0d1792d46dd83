use jw::algorithm::HashAlgorithm;
use jw::hasher::{
    finish, hash_buffered, hash_chunks, hash_content, hash_mapped, read_strategy, Hasher,
    ReadStrategy, CHUNK_SIZE, MAP_THRESHOLD,
};
use jw::hex::{hexlify, normalize};

const ALL: [HashAlgorithm; 6] = [
    HashAlgorithm::Xxh3,
    HashAlgorithm::Sha224,
    HashAlgorithm::Sha256,
    HashAlgorithm::Sha384,
    HashAlgorithm::Sha512,
    HashAlgorithm::Md5,
];

fn sample(len: usize) -> Vec<u8> {
    (0..len).map(|i| ((i * 31 + 7) % 251) as u8).collect()
}

#[test]
fn digest_sizes() {
    assert_eq!(HashAlgorithm::Xxh3.digest_size(), 16);
    assert_eq!(HashAlgorithm::Sha224.digest_size(), 28);
    assert_eq!(HashAlgorithm::Sha256.digest_size(), 32);
    assert_eq!(HashAlgorithm::Sha384.digest_size(), 48);
    assert_eq!(HashAlgorithm::Sha512.digest_size(), 64);
    assert_eq!(HashAlgorithm::Md5.digest_size(), 16);
}

#[test]
fn hexlify_renders_lowercase_pairs() {
    assert_eq!(hexlify(vec![]), "");
    assert_eq!(hexlify(vec![0x00, 0x0f, 0xa0, 0xff]), "000fa0ff");
    assert_eq!(hexlify(vec![0xde, 0xad, 0xbe, 0xef]), "deadbeef");
    assert_eq!(hexlify(vec![0x09, 0x0a, 0x99, 0x9a]), "090a999a");
}

#[test]
fn hexlify_covers_every_byte() {
    for b in 0u16..256 {
        assert_eq!(hexlify(vec![b as u8]), format!("{:02x}", b));
    }
}

#[test]
fn normalize_lowers_ascii_capitals_only() {
    assert_eq!(normalize("DEADbeef0123"), "deadbeef0123");
    assert_eq!(normalize("AZaz@[`{"), "azaz@[`{");
    assert_eq!(normalize(""), "");
    assert_eq!(normalize("\u{c4}B"), "\u{c4}b");
}

#[test]
fn md5_known_digests() {
    assert_eq!(hash_content(HashAlgorithm::Md5, b""), "d41d8cd98f00b204e9800998ecf8427e");
    assert_eq!(hash_content(HashAlgorithm::Md5, b"abc"), "900150983cd24fb0d6963f7d28e17f72");
    assert_eq!(
        hash_content(HashAlgorithm::Md5, b"abcdefghijklmnopqrstuvwxyz"),
        "c3fcd3d76192e4007dfb496cca67e13b"
    );
}

#[test]
fn sha2_known_digests() {
    assert_eq!(
        hash_content(HashAlgorithm::Sha224, b"abc"),
        "23097d223405d8228642a477bda255b32aadbce4bda0b3f7e36c9da7"
    );
    assert_eq!(
        hash_content(HashAlgorithm::Sha256, b"abc"),
        "ba7816bf8f01cfea414140de5dae2223b00361a396177a9cb410ff61f20015ad"
    );
    assert_eq!(
        hash_content(HashAlgorithm::Sha256, b""),
        "e3b0c44298fc1c149afbf4c8996fb92427ae41e4649b934ca495991b7852b855"
    );
    assert_eq!(
        hash_content(HashAlgorithm::Sha384, b"abc"),
        "cb00753f45a35e8bb5a03d699ac65007272c32ab0eded1631a8b605a43ff5bed8086072ba1e7cc2358baeca134c825a7"
    );
    assert_eq!(
        hash_content(HashAlgorithm::Sha512, b"abc"),
        "ddaf35a193617abacc417349ae20413112e6fa4e89a97ea20a9eeee64b55d39a2192992a274fc1a836ba3c23a3feebbd454d4423643ce80e2a9ac94fa54ca49f"
    );
}

#[test]
fn xxh3_digest_is_the_hash_least_significant_byte_first() {
    for data in [sample(0), sample(1), sample(17), sample(300), sample(5000)] {
        let hash = xxhash_rust::xxh3::xxh3_128(&data);
        let expected: String = hash.to_le_bytes().iter().map(|b| format!("{:02x}", b)).collect();
        assert_eq!(hash_content(HashAlgorithm::Xxh3, &data), expected);
    }
}

#[test]
fn xxh3_known_digest_of_nothing() {
    assert_eq!(hash_content(HashAlgorithm::Xxh3, b""), "7f498d4624c30160d8984701d306aa99");
}

#[test]
fn digest_text_is_twice_the_digest_size() {
    for algorithm in ALL {
        for len in [0usize, 1, 63, 64, 65, 1000] {
            let text = hash_content(algorithm, &sample(len));
            assert_eq!(text.len(), 2 * algorithm.digest_size());
            assert!(text.chars().all(|c| c.is_ascii_digit() || ('a'..='f').contains(&c)));
        }
    }
}

#[test]
fn different_content_gives_different_digests() {
    for algorithm in ALL {
        assert_ne!(hash_content(algorithm, b"abc"), hash_content(algorithm, b"abd"));
        assert_ne!(hash_content(algorithm, b""), hash_content(algorithm, b"\0"));
    }
}

fn both_ways<H: Hasher>(data: &[u8]) {
    let whole = hash_mapped::<H>(data);
    for chunk in [1usize, 2, 3, 64, 4096, CHUNK_SIZE] {
        assert_eq!(hash_buffered::<H>(data, chunk), whole);
    }
}

#[test]
fn buffered_and_mapped_strategies_agree() {
    for len in [0usize, 1, 5, 64, 129, 10_000] {
        let data = sample(len);
        both_ways::<xxhash_rust::xxh3::Xxh3Default>(&data);
        both_ways::<sha2::Sha224>(&data);
        both_ways::<sha2::Sha256>(&data);
        both_ways::<sha2::Sha384>(&data);
        both_ways::<sha2::Sha512>(&data);
        both_ways::<md5::Context>(&data);
    }
}

#[test]
fn buffered_and_mapped_agree_past_one_chunk() {
    let data = sample(CHUNK_SIZE * 2 + 17);
    assert_eq!(
        hash_buffered::<sha2::Sha256>(&data, CHUNK_SIZE),
        hash_mapped::<sha2::Sha256>(&data)
    );
    assert_eq!(
        hash_buffered::<md5::Context>(&data, CHUNK_SIZE),
        hash_mapped::<md5::Context>(&data)
    );
    assert_eq!(
        hash_buffered::<xxhash_rust::xxh3::Xxh3Default>(&data, CHUNK_SIZE),
        hash_mapped::<xxhash_rust::xxh3::Xxh3Default>(&data)
    );
}

#[test]
fn chunks_digest_as_their_concatenation() {
    let chunks = vec![b"ab".to_vec(), vec![], b"c".to_vec()];
    assert_eq!(
        hash_chunks::<sha2::Sha256>(&chunks),
        "ba7816bf8f01cfea414140de5dae2223b00361a396177a9cb410ff61f20015ad"
    );
    assert_eq!(hash_chunks::<md5::Context>(&chunks), "900150983cd24fb0d6963f7d28e17f72");
    assert_eq!(hash_chunks::<md5::Context>(&vec![]), "d41d8cd98f00b204e9800998ecf8427e");
}

#[test]
fn incremental_state_matches_one_shot() {
    let mut state = <sha2::Sha512 as Hasher>::create();
    Hasher::update(&mut state, b"a");
    Hasher::update(&mut state, b"bc");
    assert_eq!(finish(state), hash_content(HashAlgorithm::Sha512, b"abc"));

    let mut state = <md5::Context as Hasher>::create();
    Hasher::update(&mut state, b"abcdefghijklm");
    Hasher::update(&mut state, b"nopqrstuvwxyz");
    assert_eq!(hexlify(Hasher::finalize(state)), "c3fcd3d76192e4007dfb496cca67e13b");
}

#[test]
fn finalize_gives_digest_size_bytes() {
    assert_eq!(Hasher::finalize(<xxhash_rust::xxh3::Xxh3Default as Hasher>::create()).len(), 16);
    assert_eq!(Hasher::finalize(<sha2::Sha224 as Hasher>::create()).len(), 28);
    assert_eq!(Hasher::finalize(<sha2::Sha256 as Hasher>::create()).len(), 32);
    assert_eq!(Hasher::finalize(<sha2::Sha384 as Hasher>::create()).len(), 48);
    assert_eq!(Hasher::finalize(<sha2::Sha512 as Hasher>::create()).len(), 64);
    assert_eq!(Hasher::finalize(<md5::Context as Hasher>::create()).len(), 16);
}

#[test]
fn mapping_starts_strictly_above_twenty_mebibytes() {
    assert_eq!(MAP_THRESHOLD, 20 * 1024 * 1024);
    assert_eq!(CHUNK_SIZE, 128 * 1024);
    assert_eq!(read_strategy(0), ReadStrategy::Buffered);
    assert_eq!(read_strategy(MAP_THRESHOLD), ReadStrategy::Buffered);
    assert_eq!(read_strategy(MAP_THRESHOLD + 1), ReadStrategy::Mapped);
    assert_eq!(read_strategy(u64::MAX), ReadStrategy::Mapped);
}

#[test]
fn algorithms_are_found_by_name() {
    assert_eq!(HashAlgorithm::from_name("xxh3"), Some(HashAlgorithm::Xxh3));
    assert_eq!(HashAlgorithm::from_name("SHA224"), Some(HashAlgorithm::Sha224));
    assert_eq!(HashAlgorithm::from_name("Sha256"), Some(HashAlgorithm::Sha256));
    assert_eq!(HashAlgorithm::from_name("sha384"), Some(HashAlgorithm::Sha384));
    assert_eq!(HashAlgorithm::from_name("sHa512"), Some(HashAlgorithm::Sha512));
    assert_eq!(HashAlgorithm::from_name("MD5"), Some(HashAlgorithm::Md5));
    assert_eq!(HashAlgorithm::from_name("sha1"), None);
    assert_eq!(HashAlgorithm::from_name(""), None);
    assert_eq!(HashAlgorithm::from_name("md5 "), None);
}

#[test]
fn exact_lookup_does_not_fold_case() {
    assert_eq!(HashAlgorithm::from_lowercase_name("md5"), Some(HashAlgorithm::Md5));
    assert_eq!(HashAlgorithm::from_lowercase_name("MD5"), None);
}

#[test]
fn names_round_trip() {
    for algorithm in ALL {
        assert_eq!(HashAlgorithm::from_name(&algorithm.name()), Some(algorithm));
        assert_eq!(HashAlgorithm::from_lowercase_name(&algorithm.name()), Some(algorithm));
    }
    assert_eq!(HashAlgorithm::Sha256.name(), "sha256");
}
