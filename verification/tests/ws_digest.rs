//! The two primitives of the WebSocket handshake.

use vortice::ws::digest::{base64, sha1};

/// Renders a digest as lowercase hexadecimal, to compare against published vectors.
fn hex(digest: [u8; 20]) -> String {
    digest.iter().map(|byte| format!("{byte:02x}")).collect()
}

#[test]
fn matches_the_rfc3174_vectors() {
    assert_eq!(
        hex(sha1(b"abc")),
        "a9993e364706816aba3e25717850c26c9cd0d89d"
    );
    assert_eq!(
        hex(sha1(
            b"abcdbcdecdefdefgefghfghighijhijkijkljklmklmnlmnomnopnopq"
        )),
        "84983e441c3bd26ebaae4aa1f95129e5e54670f1"
    );
    assert_eq!(
        hex(sha1(&[b'a'; 1_000_000])),
        "34aa973cd4c4daa4f61eeb2bdbad27316534016f"
    );
}

#[test]
fn digests_the_empty_message() {
    assert_eq!(hex(sha1(b"")), "da39a3ee5e6b4b0d3255bfef95601890afd80709");
}

/// The block boundaries are where a padding mistake hides, so walk across both of them.
#[test]
fn digests_every_length_around_a_block_boundary() {
    // 55 is the last length that still fits its padding in one block, 56 the first that
    // does not; 119 and 120 are the same boundary one block further on.
    let expected = [
        (56usize, "901305367c259952f4e7af8323f480d59f81335b"),
        (64, "bb2fa3ee7afb9f54c6dfb5d021f14b1ffe40c163"),
        (119, "4300320394f7ee239bcdce7d3b8bcee173a0cd5c"),
        (120, "ceb2821639c4b6dcb10bce0e522ca2e608ce056d"),
    ];
    for (length, digest) in expected {
        assert_eq!(hex(sha1(&vec![b'x'; length])), digest, "length {length}");
    }
}

#[test]
fn matches_the_rfc4648_base64_vectors() {
    assert_eq!(base64(b""), "");
    assert_eq!(base64(b"f"), "Zg==");
    assert_eq!(base64(b"fo"), "Zm8=");
    assert_eq!(base64(b"foo"), "Zm9v");
    assert_eq!(base64(b"foob"), "Zm9vYg==");
    assert_eq!(base64(b"fooba"), "Zm9vYmE=");
    assert_eq!(base64(b"foobar"), "Zm9vYmFy");
}

#[test]
fn base64_uses_its_whole_alphabet() {
    assert_eq!(base64(&[0xfb, 0xff, 0xbf]), "+/+/");
    assert_eq!(base64(&[0, 16, 131, 16, 81, 135, 32, 146, 139]), "ABCDEFGHIJKL");
    assert_eq!(base64(&[0xff]), "/w==");
}

/// Four characters for each three octets begun.
#[test]
fn base64_has_four_characters_for_three_octets() {
    for length in 0..40 {
        assert_eq!(base64(&vec![7; length]).len(), length.div_ceil(3) * 4);
    }
}
