use bundle_builder::digest::{hex_decode, hex_encode, sha256_hex, FileDigest, StreamDigest};
use sha2::{Digest, Sha256};

#[test]
fn sha256_of_known_texts() {
    assert_eq!(
        sha256_hex(b""),
        "e3b0c44298fc1c149afbf4c8996fb92427ae41e4649b934ca495991b7852b855"
    );
    assert_eq!(
        sha256_hex(b"abc"),
        "ba7816bf8f01cfea414140de5dae2223b00361a396177a9cb410ff61f20015ad"
    );
    assert_eq!(
        sha256_hex(b"hello\n"),
        "5891b5b522d5df086d0ff0b110fbd9d21bb4fc7163af34d08286a2e846f6be03"
    );
}

#[test]
fn sha256_hex_agrees_with_streaming_digest() {
    let data: Vec<u8> = (0..10_000u32).map(|i| (i % 251) as u8).collect();
    let mut hasher = Sha256::new();
    for chunk in data.chunks(77) {
        hasher.update(chunk);
    }
    let want: String = hasher.finalize().iter().map(|b| format!("{b:02x}")).collect();
    assert_eq!(sha256_hex(&data), want);
    assert_eq!(sha256_hex(&data).len(), 64);
}

#[test]
fn hex_encode_writes_two_digits_for_each_byte() {
    assert_eq!(hex_encode(&[]), "");
    assert_eq!(hex_encode(&[0x00]), "00");
    assert_eq!(hex_encode(&[0x0f, 0xf0, 0xab, 0x09]), "0ff0ab09");
    assert_eq!(hex_encode(&[0xde, 0xad, 0xbe, 0xef]), "deadbeef");
}

#[test]
fn hex_decode_reads_both_cases() {
    assert_eq!(hex_decode(""), Some(vec![]));
    assert_eq!(hex_decode("0ff0ab09"), Some(vec![0x0f, 0xf0, 0xab, 0x09]));
    assert_eq!(hex_decode("DEADbeef"), Some(vec![0xde, 0xad, 0xbe, 0xef]));
}

#[test]
fn hex_decode_refuses_other_text() {
    assert_eq!(hex_decode("abc"), None);
    assert_eq!(hex_decode("zz"), None);
    assert_eq!(hex_decode("0g"), None);
    assert_eq!(hex_decode(" 00"), None);
    assert_eq!(hex_decode("+f"), None);
    assert_eq!(hex_decode("éé"), None);
}

#[test]
fn hex_round_trip_of_every_byte() {
    let all: Vec<u8> = (0..=255u8).collect();
    let text = hex_encode(&all);
    assert_eq!(text.len(), 512);
    assert_eq!(hex_decode(&text), Some(all));
}

#[test]
fn file_digest_of_known_texts() {
    assert_eq!(
        FileDigest::of(b"hello\n").as_hex(),
        "5891b5b522d5df086d0ff0b110fbd9d21bb4fc7163af34d08286a2e846f6be03"
    );
    assert_eq!(
        FileDigest::of(b"").as_hex(),
        "e3b0c44298fc1c149afbf4c8996fb92427ae41e4649b934ca495991b7852b855"
    );
    assert_eq!(
        StreamDigest::new().finish().as_hex(),
        "e3b0c44298fc1c149afbf4c8996fb92427ae41e4649b934ca495991b7852b855"
    );
}

#[test]
fn stream_digest_does_not_depend_on_the_pieces() {
    let data: Vec<u8> = (0..100_000u32).map(|i| (i * 7 % 253) as u8).collect();
    let whole = FileDigest::of(&data);
    for size in [1usize, 63, 64, 65, 4096, 99_999, 100_000, 200_000] {
        let mut stream = StreamDigest::new();
        for chunk in data.chunks(size) {
            stream.update(chunk);
        }
        assert_eq!(stream.finish().as_hex(), whole.as_hex(), "pieces of {size}");
    }
    assert_eq!(whole.as_hex(), sha256_hex(&data));
}

#[test]
fn stream_digest_takes_the_pieces_in_order() {
    let mut ab = StreamDigest::new();
    ab.update(b"a");
    ab.update(b"b");
    let mut ba = StreamDigest::new();
    ba.update(b"b");
    ba.update(b"a");
    assert_eq!(ab.finish().as_hex(), sha256_hex(b"ab"));
    assert_eq!(ba.finish().as_hex(), sha256_hex(b"ba"));
    assert_ne!(sha256_hex(b"ab"), sha256_hex(b"ba"));
}
