use minecraft_dungeons_ai::npy::{find_bytes, parse_npy};

fn npy_v1(header: &str, payload: &[u8]) -> Vec<u8> {
    let mut d = vec![0x93, b'N', b'U', b'M', b'P', b'Y', 1, 0];
    let len = header.len() as u16;
    d.extend_from_slice(&len.to_le_bytes());
    d.extend_from_slice(header.as_bytes());
    d.extend_from_slice(payload);
    d
}

fn npy_v2(header: &str, payload: &[u8]) -> Vec<u8> {
    let mut d = vec![0x93, b'N', b'U', b'M', b'P', b'Y', 2, 0];
    let len = header.len() as u32;
    d.extend_from_slice(&len.to_le_bytes());
    d.extend_from_slice(header.as_bytes());
    d.extend_from_slice(payload);
    d
}

#[test]
fn find_bytes_first_occurrence() {
    let hay = b"abcabcab";
    assert_eq!(find_bytes(hay, b"cab", 0), Some(2));
    assert_eq!(find_bytes(hay, b"cab", 3), Some(5));
    assert_eq!(find_bytes(hay, b"cab", 6), None);
    assert_eq!(find_bytes(hay, b"zz", 0), None);
    assert_eq!(find_bytes(b"ab", b"abc", 0), None);
}

#[test]
fn parse_u8_grid() {
    let d = npy_v1("{'descr': '|u1', 'fortran_order': False, 'shape': (2, 3), }", &[0, 1, 2, 2, 1, 0, 99]);
    let g = parse_npy(&d).unwrap();
    assert_eq!((g.nrows(), g.ncols()), (2, 3));
    assert_eq!(g.get(0, 0), 0);
    assert_eq!(g.get(0, 2), 2);
    assert_eq!(g.get(1, 0), 2);
    assert_eq!(g.get(1, 2), 0);
}

#[test]
fn parse_i32_grid_clamps() {
    let mut payload = Vec::new();
    for v in [-5i32, 300, 7, 255] {
        payload.extend_from_slice(&v.to_le_bytes());
    }
    let d = npy_v1("{'descr': '<i4', 'fortran_order': False, 'shape': (2, 2), }", &payload);
    let g = parse_npy(&d).unwrap();
    assert_eq!(g.get(0, 0), 0);
    assert_eq!(g.get(0, 1), 255);
    assert_eq!(g.get(1, 0), 7);
    assert_eq!(g.get(1, 1), 255);
}

#[test]
fn parse_u16_single_dimension() {
    let mut payload = Vec::new();
    for v in [0x0102u16, 0x00ff, 0x0300] {
        payload.extend_from_slice(&v.to_le_bytes());
    }
    let d = npy_v2("{'descr': '<u2', 'fortran_order': False, 'shape': (3,), }", &payload);
    let g = parse_npy(&d).unwrap();
    assert_eq!((g.nrows(), g.ncols()), (3, 1));
    assert_eq!(g.get(0, 0), 2);
    assert_eq!(g.get(1, 0), 255);
    assert_eq!(g.get(2, 0), 0);
}

#[test]
fn parse_empty_shape_is_one_by_one() {
    let d = npy_v1("{'descr': '|u1', 'shape': (), }", &[42]);
    let g = parse_npy(&d).unwrap();
    assert_eq!((g.nrows(), g.ncols()), (1, 1));
    assert_eq!(g.get(0, 0), 42);
}

#[test]
fn parse_unknown_dtype_reads_bytes() {
    let d = npy_v1("{'descr': '<f8', 'shape': (1, 2), }", &[5, 6, 7]);
    let g = parse_npy(&d).unwrap();
    assert_eq!(g.get(0, 0), 5);
    assert_eq!(g.get(0, 1), 6);
}

#[test]
fn parse_rejects_malformed() {
    assert!(parse_npy(b"").is_none());
    assert!(parse_npy(b"\x93NUMPZ\x01\x00\x00\x00").is_none());
    // no shape in the header
    assert!(parse_npy(&npy_v1("{'descr': '|u1'}", &[1, 2])).is_none());
    // too few elements
    assert!(parse_npy(&npy_v1("{'shape': (2, 2), }", &[1, 2, 3])).is_none());
    // header longer than the file
    let mut d = npy_v1("{'shape': (1, 1), }", &[1]);
    d[8] = 200;
    assert!(parse_npy(&d).is_none());
    // header that is not UTF-8
    let mut d = npy_v1("{'shape': (1, 1), }", &[1]);
    d[10] = 0xff;
    assert!(parse_npy(&d).is_none());
}
