use nfd::pathset::encode_pathset;
use nfd::NFDErrorType;
use nfd::PathSet;

fn pathset_of(paths: &[&[u8]]) -> PathSet {
    let mut buf: Vec<u8> = Vec::new();
    let mut indices: Vec<usize> = Vec::new();
    for p in paths {
        indices.push(buf.len());
        buf.extend_from_slice(p);
        buf.push(0);
    }
    PathSet { buf, indices }
}

#[test]
fn decode_empty_pathset() {
    let ps = PathSet {
        buf: Vec::new(),
        indices: Vec::new(),
    };
    assert_eq!(ps.decode(), Ok(Vec::new()));
}

#[test]
fn decode_single_path() {
    let ps = pathset_of(&[b"a.txt"]);
    assert_eq!(ps.decode(), Ok(vec![b"a.txt".to_vec()]));
}

#[test]
fn decode_two_paths() {
    let ps = pathset_of(&[b"first/file.rs", b"second"]);
    assert_eq!(
        ps.decode(),
        Ok(vec![b"first/file.rs".to_vec(), b"second".to_vec()])
    );
}

#[test]
fn decode_ten_paths() {
    let mut paths: Vec<Vec<u8>> = Vec::new();
    for i in 0..10u8 {
        let mut p = b"dir/file".to_vec();
        p.push(b'0' + i);
        paths.push(p);
    }
    let borrowed: Vec<&[u8]> = paths.iter().map(|p| p.as_slice()).collect();
    let ps = pathset_of(&borrowed);
    assert_eq!(ps.decode(), Ok(paths));
}

#[test]
fn decode_three_known_paths() {
    let ps = PathSet {
        buf: b"a.txt\0name.png\0z\0".to_vec(),
        indices: vec![0, 6, 15],
    };
    assert_eq!(
        ps.decode(),
        Ok(vec![b"a.txt".to_vec(), b"name.png".to_vec(), b"z".to_vec()])
    );
}

#[test]
fn decode_index_past_buffer() {
    let ps = PathSet {
        buf: b"a.txt\0".to_vec(),
        indices: vec![0, 40],
    };
    assert_eq!(ps.decode(), Err(NFDErrorType::MalformedPathset));
}

#[test]
fn decode_last_index_past_buffer() {
    let ps = PathSet {
        buf: b"a.txt\0".to_vec(),
        indices: vec![40],
    };
    assert_eq!(ps.decode(), Err(NFDErrorType::MalformedPathset));
}

#[test]
fn decode_missing_terminator_before_next_index() {
    let ps = PathSet {
        buf: b"abcdef\0".to_vec(),
        indices: vec![0, 3],
    };
    assert_eq!(ps.decode(), Err(NFDErrorType::MalformedPathset));
}

#[test]
fn decode_missing_final_terminator() {
    let ps = PathSet {
        buf: b"a\0no-null-here".to_vec(),
        indices: vec![0, 2],
    };
    assert_eq!(ps.decode(), Err(NFDErrorType::MalformedPathset));
}

#[test]
fn decode_unordered_indices() {
    let ps = PathSet {
        buf: b"a\0b\0".to_vec(),
        indices: vec![2, 0],
    };
    assert_eq!(ps.decode(), Err(NFDErrorType::MalformedPathset));
}

#[test]
fn round_trip_plain_paths() {
    let paths = vec![
        b"/home/user/a.txt".to_vec(),
        b"relative/path.png".to_vec(),
        b"z".to_vec(),
    ];
    let ps = encode_pathset(&paths);
    assert_eq!(ps.decode(), Ok(paths));
}

#[test]
fn round_trip_non_text_bytes() {
    let paths = vec![
        vec![0xff, 0xfe, b'/', 0x80, 0x81],
        b"plain".to_vec(),
        vec![0xc3, 0x28],
    ];
    let ps = encode_pathset(&paths);
    assert_eq!(ps.decode(), Ok(paths));
}

#[test]
fn round_trip_empty_path() {
    let paths = vec![Vec::new(), b"after-empty".to_vec(), Vec::new()];
    let ps = encode_pathset(&paths);
    assert_eq!(ps.decode(), Ok(paths));
}

#[test]
fn round_trip_no_paths() {
    let paths: Vec<Vec<u8>> = Vec::new();
    let ps = encode_pathset(&paths);
    assert_eq!(ps.buf.len(), 0);
    assert_eq!(ps.indices.len(), 0);
    assert_eq!(ps.decode(), Ok(Vec::new()));
}

#[test]
fn encode_builds_native_layout() {
    let paths = vec![b"a.txt".to_vec(), b"name.png".to_vec(), b"z".to_vec()];
    let ps = encode_pathset(&paths);
    assert_eq!(ps.buf, b"a.txt\0name.png\0z\0".to_vec());
    assert_eq!(ps.indices, vec![0, 6, 15]);
}
