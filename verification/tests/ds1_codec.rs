use d2sw_tiled_project::cursor::{Cursor, ReadExt};
use d2sw_tiled_project::ds1::{
    existsTagLayer, Error, Group, Node, Object, Path, RootStruct, VersionMismatchError,
};

fn le32(out: &mut Vec<u8>, v: i32) {
    out.extend_from_slice(&v.to_le_bytes());
}

fn parse(bytes: &[u8]) -> Result<(RootStruct, usize), Error> {
    let mut cursor = Cursor::new(bytes);
    let m = RootStruct::new(&mut cursor)?;
    Ok((m, cursor.remaining()))
}

fn version7() -> Vec<u8> {
    let mut b = Vec::new();
    le32(&mut b, 7);
    le32(&mut b, 1); // xMax
    le32(&mut b, 1); // yMax
    le32(&mut b, 0); // numFiles
    le32(&mut b, 0); // numWallLayers
    for cell in 0..8u32 {
        b.extend_from_slice(&(cell * 0x0101_0101).to_le_bytes());
    }
    le32(&mut b, 0); // objects
    b
}

fn sample(version: i32) -> RootStruct {
    let tag = version >= 10;
    RootStruct {
        version,
        xMax: 2,
        yMax: 1,
        actIndex: if version >= 8 { 4 } else { 0 },
        tagType: if tag { 2 } else { 0 },
        files: vec!["data\\global\\tiles\\act1.dt1".to_string(), "x".to_string()],
        unknown: if (9..=13).contains(&version) { Some([1, 2, 3, 4, 5, 6, 7, 8]) } else { None },
        numWallLayers: 1,
        numFloors: if version >= 16 { 2 } else { 1 },
        layers: (0..(2 + if version >= 16 { 2 } else { 1 } + 1 + if tag { 1 } else { 0 }))
            .map(|l| (0..6u32).map(|c| l * 1000 + c).collect())
            .collect(),
        objects: Some(vec![
            Object { type_: 1, id: 2, x: 3, y: 4, flags: 5 },
            Object { type_: -1, id: -2, x: -3, y: -4, flags: -5 },
        ]),
        groups: if version >= 12 && tag {
            Some(vec![Group { x: 1, y: 2, width: 3, height: 4, unknown: if version >= 13 { 5 } else { 0 } }])
        } else {
            None
        },
        paths: if version >= 14 {
            Some(vec![
                Path {
                    x: 7,
                    y: 8,
                    nodes: vec![
                        Node { x: 1, y: 2, action: if version >= 15 { 9 } else { 1 } },
                        Node { x: 3, y: 4, action: 1 },
                    ],
                },
                Path { x: 0, y: 0, nodes: vec![] },
            ])
        } else {
            None
        },
    }
}

#[test]
fn version_7_map_has_two_layers_of_four_cells() {
    let bytes = version7();
    let (m, rest) = parse(&bytes).unwrap();
    assert_eq!(rest, 0);
    assert_eq!(m.version, 7);
    assert_eq!((m.xMax, m.yMax), (1, 1));
    assert_eq!((m.actIndex, m.tagType), (0, 0));
    assert!(m.files.is_empty());
    assert_eq!(m.unknown, None);
    assert_eq!((m.numWallLayers, m.numFloors), (0, 1));
    assert_eq!(m.layers.len(), 2);
    assert_eq!(m.layers[0], vec![0, 0x0101_0101, 0x0202_0202, 0x0303_0303]);
    assert_eq!(m.layers[1], vec![0x0404_0404, 0x0505_0505, 0x0606_0606, 0x0707_0707]);
    assert_eq!((m.objects, m.groups, m.paths), (None, None, None));
}

#[test]
fn version_7_map_is_written_back() {
    let bytes = version7();
    let (m, _) = parse(&bytes).unwrap();
    assert!(m.isWritable());
    let mut out = Vec::new();
    m.writeTo(&mut out);
    // five numbers, two layers of four cells, the number of the objects
    assert_eq!(out.len(), 20 + 32 + 4);
    assert_eq!(out, bytes);
}

#[test]
fn every_version_reads_back_what_it_wrote() {
    for version in 7..=18 {
        let m = sample(version);
        assert!(m.isWritable());
        let mut out = vec![0xEE];
        m.writeTo(&mut out);
        assert_eq!(out[0], 0xEE);
        let (read, rest) = parse(&out[1..]).unwrap();
        assert_eq!(read, m, "version {}", version);
        assert_eq!(rest, 0);
    }
}

#[test]
fn fields_follow_the_version() {
    let mut lengths = Vec::new();
    for version in 7..=18 {
        let mut m = sample(version);
        m.files.clear();
        m.objects = None;
        m.groups = None;
        m.paths = None;
        let mut out = Vec::new();
        m.writeTo(&mut out);
        lengths.push(out.len() - 24 * m.layers.len());
    }
    // version, size, files, wall layers, objects; then what each version adds
    assert_eq!(lengths, vec![24, 28, 36, 40, 40, 44, 44, 40, 40, 44, 44, 48]);
}

#[test]
fn version_below_7_is_reported_with_the_version() {
    let mut bytes = version7();
    bytes[0] = 6;
    assert_eq!(parse(&bytes), Err(Error::VersionMismatch(VersionMismatchError { version: 6 })));
}

#[test]
fn truncated_map_is_reported_and_the_cursor_stays() {
    let bytes = version7();
    for cut in [0, 3, 11, 15, 19, 30, 51, 55] {
        let mut cursor = Cursor::new(&bytes[..cut]);
        assert_eq!(RootStruct::new(&mut cursor), Err(Error::TruncatedInput), "cut at {}", cut);
        assert_eq!(cursor.position(), 0);
    }
}

#[test]
fn file_name_needs_its_zero_byte() {
    let mut b = Vec::new();
    le32(&mut b, 7);
    le32(&mut b, 0);
    le32(&mut b, 0);
    le32(&mut b, 1);
    b.extend_from_slice(b"abc");
    assert_eq!(parse(&b), Err(Error::TruncatedInput));
    b.push(0);
    le32(&mut b, 0);
    le32(&mut b, 77); // one layer of one cell: the floor; the shadows are missing
    assert_eq!(parse(&b), Err(Error::TruncatedInput));
    le32(&mut b, 78);
    le32(&mut b, 0);
    let (m, rest) = parse(&b).unwrap();
    assert_eq!(m.files, vec!["abc".to_string()]);
    assert_eq!(m.layers, vec![vec![77], vec![78]]);
    assert_eq!(rest, 0);
    // a name that is no text
    b[16] = 0xFF;
    assert_eq!(parse(&b), Err(Error::MalformedStructure));
}

#[test]
fn negative_counts_are_malformed() {
    let mut b = version7();
    b[15] = 0x80; // files
    assert_eq!(parse(&b), Err(Error::MalformedStructure));
    let mut b = version7();
    b[55] = 0x80; // objects
    assert_eq!(parse(&b), Err(Error::MalformedStructure));
    let mut b = version7();
    b[4..8].copy_from_slice(&(-3i32).to_le_bytes()); // xMax: (-2) * 2 cells
    assert_eq!(parse(&b), Err(Error::MalformedStructure));
}

#[test]
fn negative_number_of_layers_reads_none() {
    let mut b = Vec::new();
    le32(&mut b, 7);
    le32(&mut b, 1);
    le32(&mut b, 1);
    le32(&mut b, 0);
    le32(&mut b, -1); // 2 * -1 + 1 + 1 layers
    le32(&mut b, 0);
    let (m, rest) = parse(&b).unwrap();
    assert!(m.layers.is_empty());
    assert_eq!(rest, 0);
}

fn groups_map(version: i32) -> Vec<u8> {
    let mut b = Vec::new();
    le32(&mut b, version);
    le32(&mut b, 0);
    le32(&mut b, 0);
    le32(&mut b, 0); // act
    le32(&mut b, 1); // tag type
    le32(&mut b, 0); // files
    if version <= 13 {
        b.extend_from_slice(&[0u8; 8]);
    }
    le32(&mut b, 0); // wall layers
    if version >= 16 {
        le32(&mut b, 1);
    }
    for _ in 0..3 {
        le32(&mut b, 0); // floor, shadows, tags
    }
    le32(&mut b, 0); // objects
    if version >= 18 {
        le32(&mut b, 0);
    }
    b
}

#[test]
fn list_of_groups_may_end_with_the_buffer() {
    let mut b = groups_map(12);
    le32(&mut b, 2); // two groups are declared
    for v in [1, 2, 3, 4] {
        le32(&mut b, v);
    }
    le32(&mut b, 0); // the buffer ends four bytes into the second
    let (m, rest) = parse(&b).unwrap();
    assert_eq!(m.groups, Some(vec![Group { x: 1, y: 2, width: 3, height: 4, unknown: 0 }]));
    assert_eq!(rest, 4);
    // those four bytes must be zero
    let n = b.len();
    b[n - 4] = 1;
    assert_eq!(parse(&b), Err(Error::MalformedStructure));
    // a group cut elsewhere is truncated
    b[n - 4] = 0;
    b.push(0);
    assert_eq!(parse(&b), Err(Error::TruncatedInput));
}

#[test]
fn list_of_groups_that_ends_at_once_is_none() {
    let mut b = groups_map(12);
    le32(&mut b, 3);
    le32(&mut b, 0);
    let (m, rest) = parse(&b).unwrap();
    assert_eq!(m.groups, None);
    assert_eq!(rest, 4);
}

#[test]
fn from_version_14_the_unread_zero_is_the_number_of_paths() {
    let mut b = groups_map(14);
    le32(&mut b, 1);
    le32(&mut b, 0);
    let (m, rest) = parse(&b).unwrap();
    assert_eq!((m.groups, m.paths), (None, None));
    assert_eq!(rest, 0);
}

#[test]
fn version_18_needs_four_zero_bytes_before_the_groups() {
    let mut b = groups_map(18);
    le32(&mut b, 0); // groups
    le32(&mut b, 0); // paths
    assert!(parse(&b).is_ok());
    let at = b.len() - 12;
    b[at] = 1;
    assert_eq!(parse(&b), Err(Error::MalformedStructure));
}

#[test]
fn paths_are_left_out_where_the_buffer_ends() {
    let mut b = groups_map(15);
    le32(&mut b, 0); // groups
    let (m, rest) = parse(&b).unwrap();
    assert_eq!(m.paths, None);
    assert_eq!(rest, 0);
    le32(&mut b, 1);
    le32(&mut b, 1);
    le32(&mut b, 5);
    le32(&mut b, 6);
    le32(&mut b, 7);
    le32(&mut b, 8);
    assert_eq!(parse(&b), Err(Error::TruncatedInput));
    le32(&mut b, 9);
    b.extend_from_slice(&[1, 2, 3]);
    let (m, rest) = parse(&b).unwrap();
    assert_eq!(m.paths, Some(vec![Path { x: 5, y: 6, nodes: vec![Node { x: 7, y: 8, action: 9 }] }]));
    assert_eq!(rest, 3);
}

#[test]
fn map_without_the_bytes_of_its_version_is_not_writable() {
    let mut m = sample(9);
    assert!(m.isWritable());
    m.unknown = None;
    assert!(!m.isWritable());
    m.version = 14;
    assert!(m.isWritable());
}

#[test]
fn tag_types_1_and_2_have_a_tag_layer() {
    assert_eq!(
        [0, 1, 2, 3, -1].map(existsTagLayer),
        [false, true, true, false, false]
    );
}
