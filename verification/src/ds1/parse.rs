//! Reading the container.

use crate::cursor::{
    arr, bytes_at, find_byte, fits, i32_at, lemma_arr, remaining_at, u32s_at, zeros_at, Cursor,
    ReadError, ReadExt,
};
use crate::ds1::{
    exists_tag_layer, existsTagLayer, Error, Group, Node, Object, Path, PathView, RootStruct,
    RootView, VersionMismatchError, MINIMUM_VERSION,
};
use vstd::prelude::*;
use vstd::slice::slice_to_vec;
use vstd::utf8::{decode_utf8, valid_utf8};

verus! {

/// `String::from_utf8` of std: the string that the bytes encode, when they
/// are valid UTF-8, and nothing otherwise.
#[verifier::external_body]
pub(crate) fn string_from_utf8(bytes: Vec<u8>) -> (r: Option<String>)
    ensures
        r is Some <==> valid_utf8(bytes@),
        r is Some ==> r->Some_0@ == decode_utf8(bytes@),
{
    String::from_utf8(bytes).ok()
}

/// The error of the map that stands for an error of a read.
pub open spec fn lift(e: ReadError) -> Error {
    match e {
        ReadError::TruncatedInput => Error::TruncatedInput,
        ReadError::MalformedStructure => Error::MalformedStructure,
    }
}

/// The fields before the file names.
pub struct Head {
    pub version: i32,
    pub xMax: i32,
    pub yMax: i32,
    pub actIndex: i32,
    pub tagType: i32,
    pub numFiles: i32,
}

/// Bytes of the fields before the file names: four numbers, and one more
/// from version 8 on and from version 10 on.
pub open spec fn head_len(version: int) -> int {
    16 + (if version >= 8 {
        4int
    } else {
        0
    }) + (if version >= 10 {
        4int
    } else {
        0
    })
}

/// The fields before the file names, read at `p`. A field that the version
/// does not have is zero.
pub open spec fn parse_head(s: Seq<u8>, p: int) -> Result<Head, Error> {
    if !fits(s, p, 4) {
        Err(Error::TruncatedInput)
    } else {
        let v = i32_at(s, p);
        if v < MINIMUM_VERSION {
            Err(Error::VersionMismatch(VersionMismatchError { version: v as i32 }))
        } else if !fits(s, p, head_len(v)) {
            Err(Error::TruncatedInput)
        } else {
            Ok(
                Head {
                    version: v as i32,
                    xMax: i32_at(s, p + 4) as i32,
                    yMax: i32_at(s, p + 8) as i32,
                    actIndex: if v >= 8 {
                        i32_at(s, p + 12) as i32
                    } else {
                        0
                    },
                    tagType: if v >= 10 {
                        i32_at(s, p + 16) as i32
                    } else {
                        0
                    },
                    numFiles: i32_at(s, p + head_len(v) - 4) as i32,
                },
            )
        }
    }
}

/// The place of the first zero byte of `s` at or after `q`, or the length of
/// `s` when there is none.
pub open spec fn first_nul(s: Seq<u8>, q: int) -> int
    decreases s.len() - q,
{
    if q < 0 || q >= s.len() {
        s.len() as int
    } else if s[q] == 0 {
        q
    } else {
        first_nul(s, q + 1)
    }
}

/// The file name at `q`: the bytes up to the next zero byte, which must be
/// valid UTF-8, and the place after that byte.
pub open spec fn file_at(s: Seq<u8>, q: int) -> Result<(Seq<char>, int), ReadError> {
    let z = first_nul(s, q);
    if !(0 <= q <= s.len()) || z >= s.len() {
        Err(ReadError::TruncatedInput)
    } else if !valid_utf8(s.subrange(q, z)) {
        Err(ReadError::MalformedStructure)
    } else {
        Ok((decode_utf8(s.subrange(q, z)), z + 1))
    }
}

/// The first `k` file names from `p` on, and the place after them.
pub open spec fn parse_files(s: Seq<u8>, p: int, k: int) -> Result<(Seq<Seq<char>>, int), ReadError>
    decreases k,
{
    if k <= 0 {
        Ok((Seq::empty(), p))
    } else {
        match parse_files(s, p, k - 1) {
            Err(e) => Err(e),
            Ok((files, q)) => match file_at(s, q) {
                Err(e) => Err(e),
                Ok((f, next)) => Ok((files.push(f), next)),
            },
        }
    }
}

/// Bytes of the fields between the file names and the layers.
pub open spec fn mid_len(version: int) -> int {
    4 + (if 9 <= version <= 13 {
        8int
    } else {
        0
    }) + (if version >= 16 {
        4int
    } else {
        0
    })
}

/// The number of layers: two for each wall layer, the floors, the shadows,
/// and the tags where there are any.
pub open spec fn layer_count(numWallLayers: int, numFloors: int, tagType: i32) -> int {
    2 * numWallLayers + numFloors + 1 + if exists_tag_layer(tagType) {
        1int
    } else {
        0
    }
}

/// The number of cells of a layer.
pub open spec fn cell_count(xMax: int, yMax: int) -> int {
    (xMax + 1) * (yMax + 1)
}

/// `count` layers of `cells` cells each, read at `p`, and the place after
/// them.
pub open spec fn parse_layers(s: Seq<u8>, p: int, count: int, cells: int) -> Result<
    (Seq<Seq<u32>>, int),
    ReadError,
> {
    if count <= 0 {
        Ok((Seq::empty(), p))
    } else if cells < 0 {
        Err(ReadError::MalformedStructure)
    } else if !fits(s, p, 4 * cells * count) {
        Err(ReadError::TruncatedInput)
    } else {
        Ok(
            (
                Seq::new(count as nat, |i: int| u32s_at(s, p + 4 * cells * i, cells as nat)),
                p + 4 * cells * count,
            ),
        )
    }
}

/// The object stored at `p`.
pub open spec fn object_at(s: Seq<u8>, p: int) -> Object {
    Object {
        type_: i32_at(s, p) as i32,
        id: i32_at(s, p + 4) as i32,
        x: i32_at(s, p + 8) as i32,
        y: i32_at(s, p + 12) as i32,
        flags: i32_at(s, p + 16) as i32,
    }
}

/// The list, or `None` when it is empty.
pub open spec fn some_if_any<T>(l: Seq<T>) -> Option<Seq<T>> {
    if l.len() > 0 {
        Some(l)
    } else {
        None
    }
}

/// The counted list of objects at `p`, and the place after it.
pub open spec fn parse_objects(s: Seq<u8>, p: int) -> Result<(Option<Seq<Object>>, int), ReadError> {
    if !fits(s, p, 4) {
        Err(ReadError::TruncatedInput)
    } else {
        let n = i32_at(s, p);
        if n < 0 {
            Err(ReadError::MalformedStructure)
        } else if !fits(s, p + 4, 20 * n) {
            Err(ReadError::TruncatedInput)
        } else {
            Ok(
                (
                    some_if_any(Seq::new(n as nat, |i: int| object_at(s, p + 4 + 20 * i))),
                    p + 4 + 20 * n,
                ),
            )
        }
    }
}

/// Bytes of a group.
pub open spec fn group_size(version: int) -> int {
    if version >= 13 {
        20
    } else {
        16
    }
}

/// The group stored at `p`. Before version 13 its last field is zero.
pub open spec fn group_at(s: Seq<u8>, p: int, version: int) -> Group {
    Group {
        x: i32_at(s, p) as i32,
        y: i32_at(s, p + 4) as i32,
        width: i32_at(s, p + 8) as i32,
        height: i32_at(s, p + 12) as i32,
        unknown: if version >= 13 {
            i32_at(s, p + 16) as i32
        } else {
            0
        },
    }
}

/// How far the list of groups was read.
pub struct GroupsRead {
    pub groups: Seq<Group>,
    /// The place after the groups.
    pub pos: int,
    /// The buffer ended where a group should start.
    pub stopped: bool,
}

/// Reads one more group. A buffer that ends four bytes into a group, with
/// those bytes zero, ends the list there; the four bytes stay unread.
pub open spec fn group_step(s: Seq<u8>, st: GroupsRead, version: int) -> Result<GroupsRead, ReadError> {
    let q = st.pos;
    if !fits(s, q, 4) {
        Err(ReadError::TruncatedInput)
    } else if q + 4 == s.len() {
        if i32_at(s, q) != 0 {
            Err(ReadError::MalformedStructure)
        } else {
            Ok(GroupsRead { stopped: true, ..st })
        }
    } else if !fits(s, q, group_size(version)) {
        Err(ReadError::TruncatedInput)
    } else {
        Ok(
            GroupsRead {
                groups: st.groups.push(group_at(s, q, version)),
                pos: q + group_size(version),
                stopped: false,
            },
        )
    }
}

/// Reads up to `k` groups from `p` on.
pub open spec fn parse_groups(s: Seq<u8>, p: int, version: int, k: int) -> Result<GroupsRead, ReadError>
    decreases k,
{
    if k <= 0 {
        Ok(GroupsRead { groups: Seq::empty(), pos: p, stopped: false })
    } else {
        match parse_groups(s, p, version, k - 1) {
            Err(e) => Err(e),
            Ok(st) => if st.stopped {
                Ok(st)
            } else {
                group_step(s, st, version)
            },
        }
    }
}

/// The counted list of groups at `p`, which only maps from version 12 on
/// with a layer of tags have, and the place after it. From version 18 on
/// four zero bytes come first.
pub open spec fn parse_group_list(s: Seq<u8>, p: int, version: int, tagType: i32) -> Result<
    (Option<Seq<Group>>, int),
    ReadError,
> {
    if !(version >= 12 && exists_tag_layer(tagType)) {
        Ok((None, p))
    } else if version >= 18 && zeros_at(s, p, 4) is Err {
        Err(zeros_at(s, p, 4)->Err_0)
    } else {
        let q = if version >= 18 {
            p + 4
        } else {
            p
        };
        if !fits(s, q, 4) {
            Err(ReadError::TruncatedInput)
        } else if i32_at(s, q) < 0 {
            Err(ReadError::MalformedStructure)
        } else {
            match parse_groups(s, q + 4, version, i32_at(s, q)) {
                Err(e) => Err(e),
                Ok(st) => Ok((some_if_any(st.groups), st.pos)),
            }
        }
    }
}

/// Bytes of a node.
pub open spec fn node_size(version: int) -> int {
    if version >= 15 {
        12
    } else {
        8
    }
}

/// Bytes of `n` nodes.
pub open spec fn nodes_len(version: int, n: int) -> int {
    if version >= 15 {
        12 * n
    } else {
        8 * n
    }
}

/// Bytes of `n` groups.
pub open spec fn groups_len(version: int, n: int) -> int {
    if version >= 13 {
        20 * n
    } else {
        16 * n
    }
}

/// The node stored at `p`. Before version 15 its action is 1.
pub open spec fn node_at(s: Seq<u8>, p: int, version: int) -> Node {
    Node {
        x: i32_at(s, p) as i32,
        y: i32_at(s, p + 4) as i32,
        action: if version >= 15 {
            i32_at(s, p + 8) as i32
        } else {
            1
        },
    }
}

/// The path at `q`: the number of its nodes, its place, then the nodes; and
/// the place after it.
pub open spec fn path_at(s: Seq<u8>, q: int, version: int) -> Result<(PathView, int), ReadError> {
    if !fits(s, q, 4) {
        Err(ReadError::TruncatedInput)
    } else {
        let n = i32_at(s, q);
        if n < 0 {
            Err(ReadError::MalformedStructure)
        } else if !fits(s, q, 12) || !fits(s, q + 12, nodes_len(version, n)) {
            Err(ReadError::TruncatedInput)
        } else {
            Ok(
                (
                    PathView {
                        x: i32_at(s, q + 4) as i32,
                        y: i32_at(s, q + 8) as i32,
                        nodes: Seq::new(
                            n as nat,
                            |i: int| node_at(s, q + 12 + nodes_len(version, i), version),
                        ),
                    },
                    q + 12 + nodes_len(version, n),
                ),
            )
        }
    }
}

/// The first `k` paths from `p` on, and the place after them.
pub open spec fn parse_paths(s: Seq<u8>, p: int, version: int, k: int) -> Result<
    (Seq<PathView>, int),
    ReadError,
>
    decreases k,
{
    if k <= 0 {
        Ok((Seq::empty(), p))
    } else {
        match parse_paths(s, p, version, k - 1) {
            Err(e) => Err(e),
            Ok((paths, q)) => match path_at(s, q, version) {
                Err(e) => Err(e),
                Ok((path, next)) => Ok((paths.push(path), next)),
            },
        }
    }
}

/// The counted list of paths at `p`, which maps from version 14 on have
/// unless the buffer ends there, and the place after it.
pub open spec fn parse_path_list(s: Seq<u8>, p: int, version: int) -> Result<
    (Option<Seq<PathView>>, int),
    ReadError,
> {
    if version < 14 || remaining_at(s, p) == 0 {
        Ok((None, p))
    } else if !fits(s, p, 4) {
        Err(ReadError::TruncatedInput)
    } else if i32_at(s, p) < 0 {
        Err(ReadError::MalformedStructure)
    } else {
        match parse_paths(s, p + 4, version, i32_at(s, p)) {
            Err(e) => Err(e),
            Ok((paths, q)) => Ok((some_if_any(paths), q)),
        }
    }
}

/// The fields between the file names and the layers.
pub struct Mid {
    pub unknown: Option<[u8; 8]>,
    pub numWallLayers: i32,
    pub numFloors: i32,
}

/// The fields between the file names and the layers, read at `p`. Before
/// version 16 there is one floor.
pub open spec fn parse_mid(s: Seq<u8>, p: int, version: int) -> Result<Mid, ReadError> {
    if !fits(s, p, mid_len(version)) {
        Err(ReadError::TruncatedInput)
    } else {
        let q = if 9 <= version <= 13 {
            p + 8
        } else {
            p
        };
        Ok(
            Mid {
                unknown: if 9 <= version <= 13 {
                    Some(arr::<8>(bytes_at(s, p, 8)))
                } else {
                    None
                },
                numWallLayers: i32_at(s, q) as i32,
                numFloors: if version >= 16 {
                    i32_at(s, q + 4) as i32
                } else {
                    1
                },
            },
        )
    }
}

/// What follows the file names: the fields before the layers, the layers,
/// and the three lists.
pub open spec fn parse_rest(s: Seq<u8>, h: Head, files: Seq<Seq<char>>, p: int) -> Result<
    (RootView, int),
    ReadError,
> {
    match parse_mid(s, p, h.version as int) {
        Err(e) => Err(e),
        Ok(mid) => match parse_layers(
            s,
            p + mid_len(h.version as int),
            layer_count(mid.numWallLayers as int, mid.numFloors as int, h.tagType),
            cell_count(h.xMax as int, h.yMax as int),
        ) {
            Err(e) => Err(e),
            Ok((layers, at_objects)) => match parse_objects(s, at_objects) {
                Err(e) => Err(e),
                Ok((objects, at_groups)) => match parse_group_list(
                    s,
                    at_groups,
                    h.version as int,
                    h.tagType,
                ) {
                    Err(e) => Err(e),
                    Ok((groups, at_paths)) => match parse_path_list(s, at_paths, h.version as int) {
                        Err(e) => Err(e),
                        Ok((paths, end)) => Ok(
                            (
                                RootView {
                                    version: h.version,
                                    xMax: h.xMax,
                                    yMax: h.yMax,
                                    actIndex: h.actIndex,
                                    tagType: h.tagType,
                                    files,
                                    unknown: mid.unknown,
                                    numWallLayers: mid.numWallLayers,
                                    numFloors: mid.numFloors,
                                    layers,
                                    objects,
                                    groups,
                                    paths,
                                },
                                end,
                            ),
                        ),
                    },
                },
            },
        },
    }
}

/// The map that the bytes of `s` from `p` on hold, and the place after it;
/// or why there is none.
pub open spec fn parse(s: Seq<u8>, p: int) -> Result<(RootView, int), Error> {
    match parse_head(s, p) {
        Err(e) => Err(e),
        Ok(h) => if h.numFiles < 0 {
            Err(Error::MalformedStructure)
        } else {
            match parse_files(s, p + head_len(h.version as int), h.numFiles as int) {
                Err(e) => Err(lift(e)),
                Ok((files, at_mid)) => match parse_rest(s, h, files, at_mid) {
                    Err(e) => Err(lift(e)),
                    Ok(r) => Ok(r),
                },
            }
        },
    }
}

/// Reads an `i32` that is known to be there.
pub fn take_i32(cursor: &mut Cursor) -> (v: i32)
    requires
        fits(old(cursor).data@, old(cursor).position as int, 4),
    ensures
        final(cursor).data == old(cursor).data,
        final(cursor).position == old(cursor).position + 4,
        v == i32_at(old(cursor).data@, old(cursor).position as int),
{
    match cursor.read_i32() {
        Ok(v) => v,
        Err(_) => 0,
    }
}

/// The fields before the file names.
pub fn readHead(cursor: &mut Cursor) -> (r: Result<Head, Error>)
    ensures
        final(cursor).data == old(cursor).data,
        r == parse_head(old(cursor).data@, old(cursor).position as int),
        r is Ok ==> final(cursor).position == old(cursor).position + head_len(
            r->Ok_0.version as int,
        ),
{
    if !cursor.has(4) {
        return Err(Error::TruncatedInput);
    }
    let version = take_i32(cursor);
    if version < MINIMUM_VERSION {
        return Err(Error::VersionMismatch(VersionMismatchError { version }));
    }
    let more: usize = if version >= 10 {
        20
    } else if version >= 8 {
        16
    } else {
        12
    };
    if !cursor.has(more) {
        return Err(Error::TruncatedInput);
    }
    let xMax = take_i32(cursor);
    let yMax = take_i32(cursor);
    let actIndex = if version >= 8 {
        take_i32(cursor)
    } else {
        0
    };
    let tagType = if version >= 10 {
        take_i32(cursor)
    } else {
        0
    };
    let numFiles = take_i32(cursor);
    Ok(Head { version, xMax, yMax, actIndex, tagType, numFiles })
}

/// The first zero byte from `q` on is at `z` when no byte before `z` is zero
/// and `z` is the end or holds a zero.
pub proof fn lemma_first_nul(s: Seq<u8>, q: int, z: int)
    requires
        0 <= q <= z <= s.len(),
        forall|j: int| q <= j < z ==> s[j] != 0,
        z < s.len() ==> s[z] == 0,
    ensures
        first_nul(s, q) == z,
    decreases z - q,
{
    if q < z {
        lemma_first_nul(s, q + 1, z);
    }
}

/// The file name at the cursor.
pub fn readFile(cursor: &mut Cursor) -> (r: Result<String, ReadError>)
    ensures
        final(cursor).data == old(cursor).data,
        match r {
            Ok(f) => file_at(old(cursor).data@, old(cursor).position as int) == Ok::<
                (Seq<char>, int),
                ReadError,
            >((f@, final(cursor).position as int)),
            Err(e) => file_at(old(cursor).data@, old(cursor).position as int) == Err::<
                (Seq<char>, int),
                ReadError,
            >(e),
        },
{
    let len = cursor.data.len();
    let start = cursor.position;
    if start > len {
        return Err(ReadError::TruncatedInput);
    }
    let rest = &cursor.data[start..len];
    let ghost s = cursor.data@;
    match find_byte(0u8, rest) {
        None => {
            proof {
                assert forall|j: int| start <= j < len implies s[j] != 0 by {
                    assert(rest@[j - start] == s[j]);
                }
                lemma_first_nul(s, start as int, len as int);
            }
            Err(ReadError::TruncatedInput)
        },
        Some(i) => {
            proof {
                assert forall|j: int| start <= j < start + i implies s[j] != 0 by {
                    assert(rest@[j - start] == s[j]);
                }
                assert(rest@[i as int] == s[start + i]);
                lemma_first_nul(s, start as int, start + i);
            }
            let name = &rest[0..i];
            assert(name@ =~= s.subrange(start as int, start + i));
            match string_from_utf8(slice_to_vec(name)) {
                None => Err(ReadError::MalformedStructure),
                Some(f) => {
                    cursor.position = start + i + 1;
                    Ok(f)
                },
            }
        },
    }
}

/// Once a file name cannot be read, the list cannot be read.
pub proof fn lemma_files_err(s: Seq<u8>, p: int, k: int, n: int)
    requires
        0 <= k <= n,
        parse_files(s, p, k) is Err,
    ensures
        parse_files(s, p, n) == parse_files(s, p, k),
    decreases n,
{
    if k < n {
        lemma_files_err(s, p, k, n - 1);
    }
}

/// The `n` file names at the cursor.
pub fn readFiles(cursor: &mut Cursor, n: i32) -> (r: Result<Vec<String>, ReadError>)
    requires
        0 <= n,
    ensures
        final(cursor).data == old(cursor).data,
        match r {
            Ok(f) => parse_files(old(cursor).data@, old(cursor).position as int, n as int) == Ok::<
                (Seq<Seq<char>>, int),
                ReadError,
            >((f.deep_view(), final(cursor).position as int)),
            Err(e) => parse_files(old(cursor).data@, old(cursor).position as int, n as int)
                == Err::<(Seq<Seq<char>>, int), ReadError>(e),
        },
{
    let ghost s = cursor.data@;
    let ghost p = cursor.position as int;
    let mut files: Vec<String> = Vec::new();
    let mut i: i32 = 0;
    assert(files.deep_view() =~= Seq::<Seq<char>>::empty());
    while i < n
        invariant
            0 <= i <= n,
            cursor.data == old(cursor).data,
            s == cursor.data@,
            p == old(cursor).position,
            parse_files(s, p, i as int) == Ok::<(Seq<Seq<char>>, int), ReadError>(
                (files.deep_view(), cursor.position as int),
            ),
        decreases n - i,
    {
        let ghost before = files.deep_view();
        match readFile(cursor) {
            Err(e) => {
                proof {
                    lemma_files_err(s, p, i + 1, n as int);
                }
                return Err(e);
            },
            Ok(f) => {
                let ghost name = f@;
                files.push(f);
                assert(files.deep_view() =~= before.push(name));
            },
        }
        i = i + 1;
    }
    Ok(files)
}

/// The fields between the file names and the layers.
pub fn readMid(cursor: &mut Cursor, version: i32) -> (r: Result<Mid, ReadError>)
    ensures
        final(cursor).data == old(cursor).data,
        r == parse_mid(old(cursor).data@, old(cursor).position as int, version as int),
        r is Ok ==> final(cursor).position == old(cursor).position + mid_len(version as int),
{
    let need: usize = if version >= 9 && version <= 13 {
        12
    } else if version >= 16 {
        8
    } else {
        4
    };
    if !cursor.has(need) {
        return Err(ReadError::TruncatedInput);
    }
    let unknown: Option<[u8; 8]> = if version >= 9 && version <= 13 {
        match cursor.read_u8_array::<8>() {
            Ok(a) => {
                proof {
                    lemma_arr(a);
                }
                Some(a)
            },
            Err(_) => None,
        }
    } else {
        None
    };
    let numWallLayers = take_i32(cursor);
    let numFloors = if version >= 16 {
        take_i32(cursor)
    } else {
        1
    };
    Ok(Mid { unknown, numWallLayers, numFloors })
}

/// `count` layers of `cells` cells each.
pub fn readLayers(cursor: &mut Cursor, count: i64, cells: i64) -> (r: Result<
    Vec<Vec<u32>>,
    ReadError,
>)
    ensures
        final(cursor).data == old(cursor).data,
        match r {
            Ok(l) => parse_layers(
                old(cursor).data@,
                old(cursor).position as int,
                count as int,
                cells as int,
            ) == Ok::<(Seq<Seq<u32>>, int), ReadError>(
                (l.deep_view(), final(cursor).position as int),
            ),
            Err(e) => parse_layers(
                old(cursor).data@,
                old(cursor).position as int,
                count as int,
                cells as int,
            ) == Err::<(Seq<Seq<u32>>, int), ReadError>(e),
        },
{
    let ghost s = cursor.data@;
    let ghost p = cursor.position as int;
    let mut layers: Vec<Vec<u32>> = Vec::new();
    if count <= 0 {
        assert(layers.deep_view() =~= Seq::<Seq<u32>>::empty());
        return Ok(layers);
    }
    if cells < 0 {
        return Err(ReadError::MalformedStructure);
    }
    if cursor.position > cursor.data.len() {
        return Err(ReadError::TruncatedInput);
    }
    let room = cursor.remaining();
    if cells as u64 > (room / 4) as u64 {
        proof {
            assert(4 * cells * count >= 4 * cells) by (nonlinear_arith)
                requires
                    count >= 1,
                    cells >= 0,
            ;
        }
        return Err(ReadError::TruncatedInput);
    }
    let each: usize = cells as usize;
    let mut i: i64 = 0;
    while i < count
        invariant
            0 <= i <= count,
            0 <= cells == each,
            cursor.data == old(cursor).data,
            s == cursor.data@,
            p == old(cursor).position,
            p >= 0,
            fits(s, p, 4 * cells * i),
            cursor.position == p + 4 * cells * i,
            layers@.len() == i,
            forall|j: int|
                0 <= j < i ==> (#[trigger] layers@[j])@ == u32s_at(s, p + 4 * cells * j, cells as nat),
        decreases count - i,
    {
        proof {
            assert(4 * cells * (i + 1) == 4 * cells * i + 4 * cells) by (nonlinear_arith);
            assert(4 * cells * i <= 4 * cells * count) by (nonlinear_arith)
                requires
                    0 <= i <= count,
                    0 <= cells,
            ;
            assert(4 * cells * (i + 1) <= 4 * cells * count) by (nonlinear_arith)
                requires
                    0 <= i + 1 <= count,
                    0 <= cells,
            ;
        }
        match cursor.read_u32s(each) {
            Err(e) => {
                return Err(ReadError::TruncatedInput);
            },
            Ok(layer) => {
                layers.push(layer);
            },
        }
        i = i + 1;
    }
    proof {
        let want = Seq::new(count as nat, |i: int| u32s_at(s, p + 4 * cells * i, cells as nat));
        assert(layers.deep_view() =~= want) by {
            assert(layers.deep_view().len() == count);
            assert forall|j: int| 0 <= j < count implies layers.deep_view()[j] == want[j] by {
                assert(layers.deep_view()[j] == layers@[j]@);
            }
        }
    }
    Ok(layers)
}

/// The object at the cursor.
pub fn readObject(cursor: &mut Cursor) -> (o: Object)
    requires
        fits(old(cursor).data@, old(cursor).position as int, 20),
    ensures
        final(cursor).data == old(cursor).data,
        final(cursor).position == old(cursor).position + 20,
        o == object_at(old(cursor).data@, old(cursor).position as int),
{
    let type_ = take_i32(cursor);
    let id = take_i32(cursor);
    let x = take_i32(cursor);
    let y = take_i32(cursor);
    let flags = take_i32(cursor);
    Object { type_, id, x, y, flags }
}

/// The counted list of objects at the cursor.
pub fn readObjects(cursor: &mut Cursor) -> (r: Result<Option<Vec<Object>>, ReadError>)
    ensures
        final(cursor).data == old(cursor).data,
        match r {
            Ok(l) => parse_objects(old(cursor).data@, old(cursor).position as int) == Ok::<
                (Option<Seq<Object>>, int),
                ReadError,
            >(
                (
                    match l {
                        Some(v) => Some(v@),
                        None => None,
                    },
                    final(cursor).position as int,
                ),
            ),
            Err(e) => parse_objects(old(cursor).data@, old(cursor).position as int) == Err::<
                (Option<Seq<Object>>, int),
                ReadError,
            >(e),
        },
{
    let ghost s = cursor.data@;
    let ghost p = cursor.position as int;
    if !cursor.has(4) {
        return Err(ReadError::TruncatedInput);
    }
    let n = take_i32(cursor);
    if n < 0 {
        return Err(ReadError::MalformedStructure);
    }
    let mut objects: Vec<Object> = Vec::new();
    let mut i: i32 = 0;
    while i < n
        invariant
            0 <= i <= n,
            cursor.data == old(cursor).data,
            s == cursor.data@,
            p == old(cursor).position,
            fits(s, p, 4),
            n == i32_at(s, p),
            p >= 0,
            fits(s, p + 4, 20 * i),
            cursor.position == p + 4 + 20 * i,
            objects@.len() == i,
            forall|j: int| 0 <= j < i ==> #[trigger] objects@[j] == object_at(s, p + 4 + 20 * j),
        decreases n - i,
    {
        if !cursor.has(20) {
            return Err(ReadError::TruncatedInput);
        }
        let o = readObject(cursor);
        objects.push(o);
        i = i + 1;
    }
    assert(objects@ =~= Seq::new(n as nat, |i: int| object_at(s, p + 4 + 20 * i)));
    if objects.len() > 0 {
        Ok(Some(objects))
    } else {
        Ok(None)
    }
}

/// Once the list of groups has ended or failed, reading on changes nothing.
pub proof fn lemma_groups_fixed(s: Seq<u8>, p: int, version: int, k: int, n: int)
    requires
        0 <= k <= n,
        parse_groups(s, p, version, k) is Err || parse_groups(s, p, version, k)->Ok_0.stopped,
    ensures
        parse_groups(s, p, version, n) == parse_groups(s, p, version, k),
    decreases n,
{
    if k < n {
        lemma_groups_fixed(s, p, version, k, n - 1);
    }
}

/// The group at the cursor.
pub fn readGroup(cursor: &mut Cursor, version: i32) -> (g: Group)
    requires
        fits(old(cursor).data@, old(cursor).position as int, group_size(version as int)),
    ensures
        final(cursor).data == old(cursor).data,
        final(cursor).position == old(cursor).position + group_size(version as int),
        g == group_at(old(cursor).data@, old(cursor).position as int, version as int),
{
    let x = take_i32(cursor);
    let y = take_i32(cursor);
    let width = take_i32(cursor);
    let height = take_i32(cursor);
    let unknown = if version >= 13 {
        take_i32(cursor)
    } else {
        0
    };
    Group { x, y, width, height, unknown }
}

/// Reads one more group of a list, or finds the list ended. Returns whether
/// the list goes on.
pub fn readGroupStep(cursor: &mut Cursor, version: i32, groups: &mut Vec<Group>) -> (r: Result<
    bool,
    ReadError,
>)
    ensures
        final(cursor).data == old(cursor).data,
        match r {
            Ok(more) => group_step(
                old(cursor).data@,
                GroupsRead {
                    groups: old(groups)@,
                    pos: old(cursor).position as int,
                    stopped: false,
                },
                version as int,
            ) == Ok::<GroupsRead, ReadError>(
                GroupsRead {
                    groups: final(groups)@,
                    pos: final(cursor).position as int,
                    stopped: !more,
                },
            ),
            Err(e) => group_step(
                old(cursor).data@,
                GroupsRead {
                    groups: old(groups)@,
                    pos: old(cursor).position as int,
                    stopped: false,
                },
                version as int,
            ) == Err::<GroupsRead, ReadError>(e),
        },
{
    let size: usize = if version >= 13 {
        20
    } else {
        16
    };
    if !cursor.has(4) {
        return Err(ReadError::TruncatedInput);
    }
    if cursor.remaining() == 4 {
        let at = cursor.position;
        let x = take_i32(cursor);
        cursor.position = at;
        if x != 0 {
            return Err(ReadError::MalformedStructure);
        }
        return Ok(false);
    }
    if !cursor.has(size) {
        return Err(ReadError::TruncatedInput);
    }
    let g = readGroup(cursor, version);
    groups.push(g);
    Ok(true)
}

/// Up to `n` groups at the cursor.
pub fn readGroups(cursor: &mut Cursor, version: i32, n: i32) -> (r: Result<Vec<Group>, ReadError>)
    requires
        0 <= n,
    ensures
        final(cursor).data == old(cursor).data,
        match r {
            Ok(l) => {
                let st = parse_groups(
                    old(cursor).data@,
                    old(cursor).position as int,
                    version as int,
                    n as int,
                );
                st is Ok && st->Ok_0.groups == l@ && st->Ok_0.pos == final(cursor).position
            },
            Err(e) => parse_groups(
                old(cursor).data@,
                old(cursor).position as int,
                version as int,
                n as int,
            ) == Err::<GroupsRead, ReadError>(e),
        },
{
    let ghost s = cursor.data@;
    let ghost p = cursor.position as int;
    let mut groups: Vec<Group> = Vec::new();
    let mut i: i32 = 0;
    while i < n
        invariant
            0 <= i <= n,
            cursor.data == old(cursor).data,
            s == cursor.data@,
            p == old(cursor).position,
            parse_groups(s, p, version as int, i as int) == Ok::<GroupsRead, ReadError>(
                GroupsRead { groups: groups@, pos: cursor.position as int, stopped: false },
            ),
        decreases n - i,
    {
        match readGroupStep(cursor, version, &mut groups) {
            Err(e) => {
                proof {
                    lemma_groups_fixed(s, p, version as int, i + 1, n as int);
                }
                return Err(e);
            },
            Ok(more) => {
                if !more {
                    proof {
                        lemma_groups_fixed(s, p, version as int, i + 1, n as int);
                    }
                    return Ok(groups);
                }
            },
        }
        i = i + 1;
    }
    Ok(groups)
}

/// The counted list of groups at the cursor, where the version and the tag
/// type have one.
pub fn readGroupList(cursor: &mut Cursor, version: i32, tagType: i32) -> (r: Result<
    Option<Vec<Group>>,
    ReadError,
>)
    ensures
        final(cursor).data == old(cursor).data,
        match r {
            Ok(l) => parse_group_list(
                old(cursor).data@,
                old(cursor).position as int,
                version as int,
                tagType,
            ) == Ok::<(Option<Seq<Group>>, int), ReadError>(
                (
                    match l {
                        Some(v) => Some(v@),
                        None => None,
                    },
                    final(cursor).position as int,
                ),
            ),
            Err(e) => parse_group_list(
                old(cursor).data@,
                old(cursor).position as int,
                version as int,
                tagType,
            ) == Err::<(Option<Seq<Group>>, int), ReadError>(e),
        },
{
    if !(version >= 12 && existsTagLayer(tagType)) {
        return Ok(None);
    }
    if version >= 18 {
        match cursor.consumeZeros(4) {
            Err(e) => {
                return Err(e);
            },
            Ok(_) => {},
        }
    }
    if !cursor.has(4) {
        return Err(ReadError::TruncatedInput);
    }
    let n = take_i32(cursor);
    if n < 0 {
        return Err(ReadError::MalformedStructure);
    }
    match readGroups(cursor, version, n) {
        Err(e) => Err(e),
        Ok(groups) => if groups.len() > 0 {
            Ok(Some(groups))
        } else {
            Ok(None)
        },
    }
}

/// The node at the cursor.
pub fn readNode(cursor: &mut Cursor, version: i32) -> (n: Node)
    requires
        fits(old(cursor).data@, old(cursor).position as int, node_size(version as int)),
    ensures
        final(cursor).data == old(cursor).data,
        final(cursor).position == old(cursor).position + node_size(version as int),
        n == node_at(old(cursor).data@, old(cursor).position as int, version as int),
{
    let x = take_i32(cursor);
    let y = take_i32(cursor);
    let action = if version >= 15 {
        take_i32(cursor)
    } else {
        1
    };
    Node { x, y, action }
}

/// The path at the cursor.
pub fn readPath(cursor: &mut Cursor, version: i32) -> (r: Result<Path, ReadError>)
    ensures
        final(cursor).data == old(cursor).data,
        match r {
            Ok(path) => path_at(old(cursor).data@, old(cursor).position as int, version as int)
                == Ok::<(PathView, int), ReadError>((path@, final(cursor).position as int)),
            Err(e) => path_at(old(cursor).data@, old(cursor).position as int, version as int)
                == Err::<(PathView, int), ReadError>(e),
        },
{
    let ghost s = cursor.data@;
    let ghost q = cursor.position as int;
    if !cursor.has(4) {
        return Err(ReadError::TruncatedInput);
    }
    let n = take_i32(cursor);
    if n < 0 {
        return Err(ReadError::MalformedStructure);
    }
    if !cursor.has(8) {
        return Err(ReadError::TruncatedInput);
    }
    let x = take_i32(cursor);
    let y = take_i32(cursor);
    let size: usize = if version >= 15 {
        12
    } else {
        8
    };
    let mut nodes: Vec<Node> = Vec::new();
    let mut i: i32 = 0;
    while i < n
        invariant
            0 <= i <= n,
            size == node_size(version as int),
            cursor.data == old(cursor).data,
            s == cursor.data@,
            q == old(cursor).position,
            n == i32_at(s, q),
            q >= 0,
            fits(s, q, 12),
            fits(s, q + 12, nodes_len(version as int, i as int)),
            cursor.position == q + 12 + nodes_len(version as int, i as int),
            nodes@.len() == i,
            forall|j: int|
                0 <= j < i ==> #[trigger] nodes@[j] == node_at(
                    s,
                    q + 12 + nodes_len(version as int, j),
                    version as int,
                ),
        decreases n - i,
    {
        if !cursor.has(size) {
            return Err(ReadError::TruncatedInput);
        }
        let node = readNode(cursor, version);
        nodes.push(node);
        i = i + 1;
    }
    assert(nodes@ =~= Seq::new(
        n as nat,
        |i: int| node_at(s, q + 12 + nodes_len(version as int, i), version as int),
    ));
    Ok(Path { x, y, nodes })
}

/// Once a path cannot be read, the list cannot be read.
pub proof fn lemma_paths_err(s: Seq<u8>, p: int, version: int, k: int, n: int)
    requires
        0 <= k <= n,
        parse_paths(s, p, version, k) is Err,
    ensures
        parse_paths(s, p, version, n) == parse_paths(s, p, version, k),
    decreases n,
{
    if k < n {
        lemma_paths_err(s, p, version, k, n - 1);
    }
}

/// The counted list of paths at the cursor, where the version has one and
/// the buffer goes on.
pub fn readPathList(cursor: &mut Cursor, version: i32) -> (r: Result<Option<Vec<Path>>, ReadError>)
    ensures
        final(cursor).data == old(cursor).data,
        match r {
            Ok(l) => parse_path_list(old(cursor).data@, old(cursor).position as int, version as int)
                == Ok::<(Option<Seq<PathView>>, int), ReadError>(
                (
                    match l {
                        Some(v) => Some(Seq::new(v@.len(), |i: int| v@[i]@)),
                        None => None,
                    },
                    final(cursor).position as int,
                ),
            ),
            Err(e) => parse_path_list(
                old(cursor).data@,
                old(cursor).position as int,
                version as int,
            ) == Err::<(Option<Seq<PathView>>, int), ReadError>(e),
        },
{
    let ghost s = cursor.data@;
    let ghost p = cursor.position as int;
    if version < 14 || cursor.remaining() == 0 {
        return Ok(None);
    }
    if !cursor.has(4) {
        return Err(ReadError::TruncatedInput);
    }
    let n = take_i32(cursor);
    if n < 0 {
        return Err(ReadError::MalformedStructure);
    }
    let mut paths: Vec<Path> = Vec::new();
    let ghost mut views: Seq<PathView> = Seq::empty();
    let mut i: i32 = 0;
    while i < n
        invariant
            0 <= i <= n,
            cursor.data == old(cursor).data,
            s == cursor.data@,
            p == old(cursor).position,
            version >= 14,
            remaining_at(s, p) != 0,
            fits(s, p, 4),
            n == i32_at(s, p),
            views == Seq::new(paths@.len(), |i: int| paths@[i]@),
            parse_paths(s, p + 4, version as int, i as int) == Ok::<(Seq<PathView>, int), ReadError>(
                (views, cursor.position as int),
            ),
        decreases n - i,
    {
        match readPath(cursor, version) {
            Err(e) => {
                proof {
                    lemma_paths_err(s, p + 4, version as int, i + 1, n as int);
                }
                return Err(e);
            },
            Ok(path) => {
                proof {
                    views = views.push(path@);
                }
                paths.push(path);
                assert(views =~= Seq::new(paths@.len(), |i: int| paths@[i]@));
            },
        }
        i = i + 1;
    }
    if paths.len() > 0 {
        Ok(Some(paths))
    } else {
        Ok(None)
    }
}

/// What follows the file names.
pub fn readRest(cursor: &mut Cursor, h: Head, files: Vec<String>) -> (r: Result<
    RootStruct,
    ReadError,
>)
    ensures
        final(cursor).data == old(cursor).data,
        match r {
            Ok(m) => parse_rest(
                old(cursor).data@,
                h,
                files.deep_view(),
                old(cursor).position as int,
            ) == Ok::<(RootView, int), ReadError>((m@, final(cursor).position as int)),
            Err(e) => parse_rest(
                old(cursor).data@,
                h,
                files.deep_view(),
                old(cursor).position as int,
            ) == Err::<(RootView, int), ReadError>(e),
        },
{
    let mid = match readMid(cursor, h.version) {
        Err(e) => {
            return Err(e);
        },
        Ok(mid) => mid,
    };
    let tag: i64 = if existsTagLayer(h.tagType) {
        1
    } else {
        0
    };
    let count: i64 = 2 * (mid.numWallLayers as i64) + mid.numFloors as i64 + 1 + tag;
    assert((h.xMax + 1) * (h.yMax + 1) <= 0x4000_0000_0000_0000 && (h.xMax + 1) * (h.yMax + 1)
        >= -0x4000_0000_0000_0000) by (nonlinear_arith)
        requires
            -0x8000_0000 <= h.xMax + 1 <= 0x8000_0000,
            -0x8000_0000 <= h.yMax + 1 <= 0x8000_0000,
    ;
    let cells: i64 = (h.xMax as i64 + 1) * (h.yMax as i64 + 1);
    let layers = match readLayers(cursor, count, cells) {
        Err(e) => {
            return Err(e);
        },
        Ok(l) => l,
    };
    let objects = match readObjects(cursor) {
        Err(e) => {
            return Err(e);
        },
        Ok(l) => l,
    };
    let groups = match readGroupList(cursor, h.version, h.tagType) {
        Err(e) => {
            return Err(e);
        },
        Ok(l) => l,
    };
    let paths = match readPathList(cursor, h.version) {
        Err(e) => {
            return Err(e);
        },
        Ok(l) => l,
    };
    Ok(
        RootStruct {
            version: h.version,
            xMax: h.xMax,
            yMax: h.yMax,
            actIndex: h.actIndex,
            tagType: h.tagType,
            files,
            unknown: mid.unknown,
            numWallLayers: mid.numWallLayers,
            numFloors: mid.numFloors,
            layers,
            objects,
            groups,
            paths,
        },
    )
}

impl RootStruct {
    /// Reads a map at the cursor and leaves the cursor after it. When the
    /// bytes hold no map the cursor stays where it was.
    pub fn new(cursor: &mut Cursor) -> (r: Result<Self, Error>)
        ensures
            final(cursor).data == old(cursor).data,
            match r {
                Ok(m) => parse(old(cursor).data@, old(cursor).position as int) == Ok::<
                    (RootView, int),
                    Error,
                >((m@, final(cursor).position as int)),
                Err(e) => parse(old(cursor).data@, old(cursor).position as int) == Err::<
                    (RootView, int),
                    Error,
                >(e) && final(cursor).position == old(cursor).position,
            },
    {
        let start = cursor.position;
        let h = match readHead(cursor) {
            Err(e) => {
                cursor.position = start;
                return Err(e);
            },
            Ok(h) => h,
        };
        if h.numFiles < 0 {
            cursor.position = start;
            return Err(Error::MalformedStructure);
        }
        let files = match readFiles(cursor, h.numFiles) {
            Err(e) => {
                cursor.position = start;
                return Err(liftError(e));
            },
            Ok(f) => f,
        };
        match readRest(cursor, h, files) {
            Err(e) => {
                cursor.position = start;
                Err(liftError(e))
            },
            Ok(m) => Ok(m),
        }
    }
}

/// The error of the map that stands for an error of a read.
pub fn liftError(e: ReadError) -> (r: Error)
    ensures
        r == lift(e),
{
    match e {
        ReadError::TruncatedInput => Error::TruncatedInput,
        ReadError::MalformedStructure => Error::MalformedStructure,
    }
}

} // verus!
