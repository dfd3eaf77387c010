use fsidx::codec::decode_vlq;
use fsidx::codec::delta_decode;
use fsidx::codec::delta_encode;
use fsidx::codec::encode_vlq;

fn round_trip(v: u64) {
    let mut out: Vec<u8> = Vec::new();
    encode_vlq(v, &mut out);
    let decoded = decode_vlq(out.as_slice(), 0);
    assert_eq!(decoded, Some((v, out.len())));
}

#[test]
fn vlq_round_trips_across_all_lengths() {
    let samples: [u64; 21] = [
        0,
        1,
        0x7f,
        0x80,
        0x3fff,
        0x4000,
        0x1f_ffff,
        0x20_0000,
        0xfff_ffff,
        0x1000_0000,
        0x7_ffff_ffff,
        0x8_0000_0000,
        0x3ff_ffff_ffff,
        0x400_0000_0000,
        0x1_ffff_ffff_ffff,
        0x2_0000_0000_0000,
        0xff_ffff_ffff_ffff,
        0x100_0000_0000_0000,
        0xffff_ffff_ffff_fffe,
        0xffff_ffff_ffff_ffff,
        10001,
    ];
    for v in samples {
        round_trip(v);
    }
}

#[test]
fn vlq_single_and_double_byte_layout() {
    let mut out: Vec<u8> = Vec::new();
    encode_vlq(0x7f, &mut out);
    assert_eq!(out, vec![0x7f]);
    let mut out2: Vec<u8> = Vec::new();
    encode_vlq(0x80, &mut out2);
    assert_eq!(out2, vec![0x80, 0x02]);
    let mut out3: Vec<u8> = Vec::new();
    encode_vlq(10001, &mut out3);
    assert_eq!(out3, vec![0x91, 0x9c]);
    assert_eq!(decode_vlq(&[0x91, 0x9c], 0), Some((10001, 2)));
}

#[test]
fn vlq_decode_needs_all_bytes() {
    assert_eq!(decode_vlq(&[0x80], 0), None);
    assert_eq!(decode_vlq(&[], 0), None);
    assert_eq!(decode_vlq(&[0xff, 1, 2, 3], 0), None);
}

#[test]
fn delta_encode_shares_prefix() {
    let (discard, suffix) = delta_encode(b"/a", b"/ab");
    assert_eq!(discard, 0);
    assert_eq!(suffix, b"b".to_vec());
    let (discard2, suffix2) = delta_encode(b"/abc", b"/axe");
    assert_eq!(discard2, 2);
    assert_eq!(suffix2, b"xe".to_vec());
    let (discard3, suffix3) = delta_encode(b"", b"/a");
    assert_eq!(discard3, 0);
    assert_eq!(suffix3, b"/a".to_vec());
}

#[test]
fn delta_decode_rebuilds() {
    let mut path = b"/abc".to_vec();
    delta_decode(&mut path, 2, b"xe");
    assert_eq!(path, b"/axe".to_vec());
    let mut empty: Vec<u8> = Vec::new();
    delta_decode(&mut empty, 0, b"/a");
    assert_eq!(empty, b"/a".to_vec());
}

#[test]
fn delta_round_trips() {
    let pairs: [(&[u8], &[u8]); 5] = [
        (b"", b""),
        (b"", b"/a"),
        (b"/a", b"/ab"),
        (b"/abc", b"/abc"),
        (b"/abc/def", b"/ab"),
    ];
    for (prev, curr) in pairs {
        let (discard, suffix) = delta_encode(prev, curr);
        let mut rolling = prev.to_vec();
        delta_decode(&mut rolling, discard as u64, suffix.as_slice());
        assert_eq!(rolling, curr.to_vec());
    }
}
