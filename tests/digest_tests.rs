use archive_manifest::digest::{digest_chunked, to_hex, DigestState};

const HELLO: &str = "2cf24dba5fb0a30e26e83b2ac5b9e29e1b161e5c1fa7425e73043362938b9824";
const WORLD: &str = "486ea46224d1bb4fb680f34f7c9ad96a8f24ec88be73ea8e5a6c65260e9cb8a7";
const EMPTY: &str = "e3b0c44298fc1c149afbf4c8996fb92427ae41e4649b934ca495991b7852b855";

#[test]
fn digest_of_known_contents() {
    assert_eq!(digest_chunked(b"hello", 1024), HELLO);
    assert_eq!(digest_chunked(b"world", 1024), WORLD);
}

#[test]
fn digest_of_empty_input() {
    assert_eq!(digest_chunked(b"", 1), EMPTY);
}

#[test]
fn digest_same_for_every_chunk_size() {
    let data: Vec<u8> = (0..1000u32).map(|i| (i * 7 % 251) as u8).collect();
    let whole = digest_chunked(&data, data.len());
    for c in [1usize, 2, 3, 7, 64, 999, 1000, 1001, 1 << 20] {
        assert_eq!(digest_chunked(&data, c), whole);
    }
    assert_eq!(digest_chunked(b"hello", 1), digest_chunked(b"hello", 2));
    assert_eq!(digest_chunked(b"hello", 3), HELLO);
}

#[test]
fn digest_state_streams_chunks() {
    let mut st = DigestState::new();
    st.absorb(b"he");
    st.absorb(b"");
    st.absorb(b"llo");
    let d = st.finish();
    assert_eq!(d, HELLO);
    assert_eq!(d.len(), 64);
}

#[test]
fn hex_rendering_is_lowercase_two_digits_per_byte() {
    assert_eq!(to_hex(&[0x00, 0xff, 0x1a, 0x09, 0xa0]), "00ff1a09a0");
    assert_eq!(to_hex(&[]), "");
}
