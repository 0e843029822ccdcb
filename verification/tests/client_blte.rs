use std::io::Write;
use wow_tools::client::blte::{decode, encoded_key, parse_layout, verify};
use wow_tools::client::util::md5;

/// Builds a BLTE blob from `(mode, content)` frames (`N` or `Z`); without a
/// table there must be exactly one frame.
fn encode(frames: &[(u8, &[u8])], with_table: bool) -> Vec<u8> {
    let encoded: Vec<Vec<u8>> = frames
        .iter()
        .map(|(mode, content)| {
            let mut f = vec![*mode];
            if *mode == b'Z' {
                let mut z =
                    flate2::write::ZlibEncoder::new(Vec::new(), flate2::Compression::default());
                z.write_all(content).unwrap();
                f.extend_from_slice(&z.finish().unwrap());
            } else {
                f.extend_from_slice(content);
            }
            f
        })
        .collect();
    let mut out = b"BLTE".to_vec();
    if !with_table {
        assert_eq!(frames.len(), 1);
        out.extend_from_slice(&0u32.to_be_bytes());
        out.extend_from_slice(&encoded[0]);
        return out;
    }
    out.extend_from_slice(&((12 + frames.len() * 24) as u32).to_be_bytes());
    out.push(0x0F);
    out.extend_from_slice(&(frames.len() as u32).to_be_bytes()[1..]);
    for (enc, (_, content)) in encoded.iter().zip(frames) {
        out.extend_from_slice(&(enc.len() as u32).to_be_bytes());
        out.extend_from_slice(&(content.len() as u32).to_be_bytes());
        out.extend_from_slice(&md5(enc));
    }
    for enc in &encoded {
        out.extend_from_slice(enc);
    }
    out
}

#[test]
fn framed_round_trip_and_verification() {
    let a: Vec<u8> = (0..10_000u32).map(|i| (i % 253) as u8).collect();
    let blob = encode(&[(b'Z', &a), (b'N', b"tail")], true);
    let ekey = encoded_key(&blob).unwrap();
    let layout = parse_layout(&blob).unwrap();
    assert_eq!(ekey, md5(&blob[..layout.data_start]));
    verify(&blob, &ekey).unwrap();
    let out = decode(&blob).unwrap();
    assert_eq!(&out[..10_000], &a[..]);
    assert_eq!(&out[10_000..], b"tail");

    // A corrupt data byte keeps the header (EKey) but fails the frame hash.
    let mut broken = blob.clone();
    *broken.last_mut().unwrap() ^= 1;
    assert_eq!(encoded_key(&broken).unwrap(), ekey);
    assert!(verify(&broken, &ekey).is_err());
    assert!(verify(&blob[..blob.len() - 1], &ekey).is_err());
    assert!(verify(&blob, &[0; 16]).is_err());
}

#[test]
fn frameless_blobs() {
    let blob = encode(&[(b'Z', b"hello world")], false);
    assert_eq!(encoded_key(&blob).unwrap(), md5(&blob));
    verify(&blob, &md5(&blob)).unwrap();
    assert_eq!(decode(&blob).unwrap(), b"hello world");
    let raw = encode(&[(b'N', b"raw")], false);
    assert_eq!(decode(&raw).unwrap(), b"raw");
}

#[test]
fn rejects_bad_input() {
    assert!(decode(b"NOPE\0\0\0\0N").is_err());
    let mut blob = encode(&[(b'N', b"x")], true);
    blob[8] = 0x0E;
    assert!(parse_layout(&blob).is_err());
    let enc = b"BLTE\0\0\0\0E\x08".to_vec();
    assert!(decode(&enc).is_err());
}
