use flate2::write::GzEncoder;
use flate2::Compression;
use gunzip::gzip::decompress;
use std::io::Write;

fn gz(payload: &[u8], level: u32) -> Vec<u8> {
    let mut e = GzEncoder::new(Vec::new(), Compression::new(level));
    e.write_all(payload).unwrap();
    e.finish().unwrap()
}

fn roundtrip(payload: &[u8]) {
    for level in [0u32, 1, 6, 9] {
        let encoded = gz(payload, level);
        assert_eq!(
            decompress(encoded).unwrap(),
            payload,
            "level {level} failed"
        );
    }
}

#[test]
fn roundtrip_empty() {
    roundtrip(b"");
}

#[test]
fn roundtrip_hello() {
    roundtrip(b"HELLO");
}

#[test]
fn roundtrip_repetitive() {
    // Long runs force back-references, self-overlapping ones included.
    let mut payload = Vec::new();
    for i in 0..30_000u32 {
        payload.push(b'a' + (i % 3) as u8);
    }
    payload.extend_from_slice(&[b'z'; 5000]);
    roundtrip(&payload);
}

#[test]
fn roundtrip_pseudo_random() {
    // Poorly compressible input exercises literal-heavy and stored paths.
    let mut state = 0x2545F4914F6CDD1Du64;
    let mut payload = Vec::new();
    for _ in 0..65_536 {
        state = state.wrapping_mul(6364136223846793005).wrapping_add(1442695040888963407);
        payload.push((state >> 56) as u8);
    }
    roundtrip(&payload);
}

#[test]
fn roundtrip_text() {
    let text = "What is recursion? To understand recursion, \
                one must first understand recursion. "
        .repeat(500);
    roundtrip(text.as_bytes());
}

#[test]
fn concatenated_members_decode_in_order() {
    let mut stream = gz(b"first member / ", 6);
    stream.extend_from_slice(&gz(b"second member", 9));
    assert_eq!(decompress(stream).unwrap(), b"first member / second member");
}
