//! The map container: layers of cells, and lists of objects, groups and
//! paths.

pub mod cell;
pub mod law;
pub mod parse;
pub mod rule;

use crate::cursor::{write_all, write_i32, write_u8, WriteExt};
use crate::le::{i32_to_le, u32_to_le, write_u32_le, zeros};
use vstd::prelude::*;
use vstd::utf8::encode_utf8;

verus! {

/// The least version that can be read.
pub const MINIMUM_VERSION: i32 = 7;

/// The layer of shadows, which every map has.
pub const ONE_SHADOW_LAYER: usize = 1;

/// Bits 0 to 7 of a cell.
pub const PROP1_MASK: u32 = 0xFF;

/// The drawing priority of a cell of a layer of tiles.
pub const LAYER_DRAWING_PRIORITY_MASK: u32 = 0xFF;

/// The orientation in a cell of a layer of orientations.
pub const ORIENTATION_MASK: u32 = 0xFF;

/// The greatest sub index.
pub const SUB_INDEX_MAX: u32 = 0xFF;

/// The lowest bit of the sub index.
pub const SUB_INDEX_OFFSET: u32 = 8;

/// Bits 8 to 15 of a cell: the sub index.
pub const SUB_INDEX_MASK: u32 = 0xFF00;

/// The greatest main index.
pub const MAIN_INDEX_MAX: u32 = 0x3F;

/// The lowest bit of the main index.
pub const MAIN_INDEX_OFFSET: u32 = 20;

/// Bits 20 to 25 of a cell: the main index.
pub const MAIN_INDEX_MASK: u32 = 0x3F0_0000;

/// The version that a map did not reach.
#[derive(Debug, Clone, Copy, PartialEq, Eq, Structural)]
pub struct VersionMismatchError {
    pub version: i32,
}

/// Why a map could not be read.
#[derive(Debug, Clone, Copy, PartialEq, Eq, Structural)]
pub enum Error {
    /// The version is below 7.
    VersionMismatch(VersionMismatchError),
    /// A field holds a value that the format does not allow.
    MalformedStructure,
    /// The buffer ended before the map did.
    TruncatedInput,
}

/// An object of a map.
#[derive(Debug, Clone, Copy, PartialEq, Eq, Structural)]
pub struct Object {
    pub type_: i32,
    pub id: i32,
    pub x: i32,
    pub y: i32,
    pub flags: i32,
}

/// A group of a map.
#[derive(Debug, Clone, Copy, PartialEq, Eq, Structural)]
pub struct Group {
    pub x: i32,
    pub y: i32,
    pub width: i32,
    pub height: i32,
    pub unknown: i32,
}

/// A node of a path.
#[derive(Debug, Clone, Copy, PartialEq, Eq, Structural)]
pub struct Node {
    pub x: i32,
    pub y: i32,
    pub action: i32,
}

/// A path of a map.
#[derive(Debug, Clone, PartialEq, Eq)]
pub struct Path {
    pub x: i32,
    pub y: i32,
    pub nodes: Vec<Node>,
}

/// What a path holds.
pub struct PathView {
    pub x: i32,
    pub y: i32,
    pub nodes: Seq<Node>,
}

impl View for Path {
    type V = PathView;

    open spec fn view(&self) -> PathView {
        PathView { x: self.x, y: self.y, nodes: self.nodes@ }
    }
}

/// A map. A list that is empty in the container is `None` here.
#[derive(Debug, Clone, PartialEq, Eq)]
pub struct RootStruct {
    pub version: i32,
    pub xMax: i32,
    pub yMax: i32,
    pub actIndex: i32,
    pub tagType: i32,
    pub files: Vec<String>,
    pub unknown: Option<[u8; 8]>,
    pub numWallLayers: i32,
    pub numFloors: i32,
    pub layers: Vec<Vec<u32>>,
    pub objects: Option<Vec<Object>>,
    pub groups: Option<Vec<Group>>,
    pub paths: Option<Vec<Path>>,
}

/// What a map holds.
pub struct RootView {
    pub version: i32,
    pub xMax: i32,
    pub yMax: i32,
    pub actIndex: i32,
    pub tagType: i32,
    pub files: Seq<Seq<char>>,
    pub unknown: Option<[u8; 8]>,
    pub numWallLayers: i32,
    pub numFloors: i32,
    pub layers: Seq<Seq<u32>>,
    pub objects: Option<Seq<Object>>,
    pub groups: Option<Seq<Group>>,
    pub paths: Option<Seq<PathView>>,
}

impl View for RootStruct {
    type V = RootView;

    open spec fn view(&self) -> RootView {
        RootView {
            version: self.version,
            xMax: self.xMax,
            yMax: self.yMax,
            actIndex: self.actIndex,
            tagType: self.tagType,
            files: self.files.deep_view(),
            unknown: self.unknown,
            numWallLayers: self.numWallLayers,
            numFloors: self.numFloors,
            layers: self.layers.deep_view(),
            objects: match self.objects {
                Some(v) => Some(v@),
                None => None,
            },
            groups: match self.groups {
                Some(v) => Some(v@),
                None => None,
            },
            paths: match self.paths {
                Some(v) => Some(Seq::new(v@.len(), |i: int| v@[i]@)),
                None => None,
            },
        }
    }
}

/// Whether maps with this tag type have a layer of tags.
pub open spec fn exists_tag_layer(tagType: i32) -> bool {
    tagType == 1 || tagType == 2
}

/// Whether maps with this tag type have a layer of tags.
pub fn existsTagLayer(tagType: i32) -> (r: bool)
    ensures
        r == exists_tag_layer(tagType),
{
    tagType == 1 || tagType == 2
}

/// The list, or the empty list when there is none.
pub open spec fn list<T>(o: Option<Seq<T>>) -> Seq<T> {
    match o {
        Some(s) => s,
        None => Seq::empty(),
    }
}

/// The first `k` file names, each followed by a zero byte.
pub open spec fn ser_files(files: Seq<Seq<char>>, k: int) -> Seq<u8>
    decreases k,
{
    if k <= 0 {
        Seq::empty()
    } else {
        ser_files(files, k - 1) + encode_utf8(files[k - 1]) + seq![0u8]
    }
}

/// The first `k` cells of a layer, four bytes each.
pub open spec fn ser_cells(layer: Seq<u32>, k: int) -> Seq<u8>
    decreases k,
{
    if k <= 0 {
        Seq::empty()
    } else {
        ser_cells(layer, k - 1) + u32_to_le(layer[k - 1] as int)
    }
}

/// The first `k` layers.
pub open spec fn ser_layers(layers: Seq<Seq<u32>>, k: int) -> Seq<u8>
    decreases k,
{
    if k <= 0 {
        Seq::empty()
    } else {
        ser_layers(layers, k - 1) + ser_cells(layers[k - 1], layers[k - 1].len() as int)
    }
}

/// The 20 bytes of an object.
pub open spec fn ser_object(o: Object) -> Seq<u8> {
    i32_to_le(o.type_ as int) + i32_to_le(o.id as int) + i32_to_le(o.x as int) + i32_to_le(
        o.y as int,
    ) + i32_to_le(o.flags as int)
}

/// The first `k` objects.
pub open spec fn ser_objects(objects: Seq<Object>, k: int) -> Seq<u8>
    decreases k,
{
    if k <= 0 {
        Seq::empty()
    } else {
        ser_objects(objects, k - 1) + ser_object(objects[k - 1])
    }
}

/// The bytes of a group: 16, and 4 more from version 13 on.
pub open spec fn ser_group(g: Group, version: int) -> Seq<u8> {
    i32_to_le(g.x as int) + i32_to_le(g.y as int) + i32_to_le(g.width as int) + i32_to_le(
        g.height as int,
    ) + if version >= 13 {
        i32_to_le(g.unknown as int)
    } else {
        Seq::empty()
    }
}

/// The first `k` groups.
pub open spec fn ser_groups(groups: Seq<Group>, version: int, k: int) -> Seq<u8>
    decreases k,
{
    if k <= 0 {
        Seq::empty()
    } else {
        ser_groups(groups, version, k - 1) + ser_group(groups[k - 1], version)
    }
}

/// The bytes of a node: 8, and 4 more from version 15 on.
pub open spec fn ser_node(n: Node, version: int) -> Seq<u8> {
    i32_to_le(n.x as int) + i32_to_le(n.y as int) + if version >= 15 {
        i32_to_le(n.action as int)
    } else {
        Seq::empty()
    }
}

/// The first `k` nodes.
pub open spec fn ser_nodes(nodes: Seq<Node>, version: int, k: int) -> Seq<u8>
    decreases k,
{
    if k <= 0 {
        Seq::empty()
    } else {
        ser_nodes(nodes, version, k - 1) + ser_node(nodes[k - 1], version)
    }
}

/// A path: the number of its nodes, its place, and the nodes.
pub open spec fn ser_path(p: PathView, version: int) -> Seq<u8> {
    i32_to_le(p.nodes.len() as int) + i32_to_le(p.x as int) + i32_to_le(p.y as int) + ser_nodes(
        p.nodes,
        version,
        p.nodes.len() as int,
    )
}

/// The first `k` paths.
pub open spec fn ser_paths(paths: Seq<PathView>, version: int, k: int) -> Seq<u8>
    decreases k,
{
    if k <= 0 {
        Seq::empty()
    } else {
        ser_paths(paths, version, k - 1) + ser_path(paths[k - 1], version)
    }
}

/// The fields before the file names: the version, the size, and what the
/// version adds.
pub open spec fn ser_head(m: RootView) -> Seq<u8> {
    i32_to_le(m.version as int) + i32_to_le(m.xMax as int) + i32_to_le(m.yMax as int) + (if m.version
        >= 8 {
        i32_to_le(m.actIndex as int)
    } else {
        Seq::empty()
    }) + (if m.version >= 10 {
        i32_to_le(m.tagType as int)
    } else {
        Seq::empty()
    }) + i32_to_le(m.files.len() as int)
}

/// The fields between the file names and the layers.
pub open spec fn ser_mid(m: RootView) -> Seq<u8> {
    (if 9 <= m.version <= 13 {
        m.unknown->Some_0@
    } else {
        Seq::empty()
    }) + i32_to_le(m.numWallLayers as int) + (if m.version >= 16 {
        i32_to_le(m.numFloors as int)
    } else {
        Seq::empty()
    })
}

/// The list of objects with its count.
pub open spec fn ser_object_list(m: RootView) -> Seq<u8> {
    i32_to_le(list(m.objects).len() as int) + ser_objects(
        list(m.objects),
        list(m.objects).len() as int,
    )
}

/// The list of groups with its count, from version 12 on and where there is
/// a layer of tags; from version 18 on four zero bytes come first.
pub open spec fn ser_group_list(m: RootView) -> Seq<u8> {
    if m.version >= 12 && exists_tag_layer(m.tagType) {
        (if m.version >= 18 {
            zeros(4)
        } else {
            Seq::empty()
        }) + i32_to_le(list(m.groups).len() as int) + ser_groups(
            list(m.groups),
            m.version as int,
            list(m.groups).len() as int,
        )
    } else {
        Seq::empty()
    }
}

/// The list of paths with its count, from version 14 on.
pub open spec fn ser_path_list(m: RootView) -> Seq<u8> {
    if m.version >= 14 {
        i32_to_le(list(m.paths).len() as int) + ser_paths(
            list(m.paths),
            m.version as int,
            list(m.paths).len() as int,
        )
    } else {
        Seq::empty()
    }
}

/// The container that holds the map.
pub open spec fn serialize(m: RootView) -> Seq<u8> {
    ser_head(m) + ser_files(m.files, m.files.len() as int) + ser_mid(m) + ser_layers(
        m.layers,
        m.layers.len() as int,
    ) + ser_object_list(m) + ser_group_list(m) + ser_path_list(m)
}

/// The map can be written: the bytes that versions 9 to 13 need are there,
/// and every count fits 32 bits.
pub open spec fn writable(m: RootView) -> bool {
    &&& 9 <= m.version <= 13 ==> m.unknown is Some
    &&& m.files.len() <= i32::MAX
    &&& list(m.objects).len() <= i32::MAX
    &&& list(m.groups).len() <= i32::MAX
    &&& list(m.paths).len() <= i32::MAX
    &&& forall|i: int| 0 <= i < list(m.paths).len() ==> (#[trigger] list(m.paths)[i]).nodes.len() <= i32::MAX
}

/// Appends a little-endian `u32`.
pub fn write_u32(out: &mut Vec<u8>, n: u32)
    ensures
        final(out)@ == old(out)@ + u32_to_le(n as int),
{
    write_u32_le(out, n);
}

impl RootStruct {
    /// Whether `writeTo` can write this map.
    pub fn isWritable(&self) -> (r: bool)
        ensures
            r == writable(self@),
    {
        if self.version >= 9 && self.version <= 13 && self.unknown.is_none() {
            return false;
        }
        let max = i32::MAX as usize;
        if self.files.len() > max {
            return false;
        }
        match &self.objects {
            Some(v) => {
                if v.len() > max {
                    return false;
                }
            },
            None => {},
        }
        match &self.groups {
            Some(v) => {
                if v.len() > max {
                    return false;
                }
            },
            None => {},
        }
        match &self.paths {
            Some(v) => {
                if v.len() > max {
                    return false;
                }
                let mut i: usize = 0;
                while i < v.len()
                    invariant
                        i <= v@.len(),
                        max == i32::MAX,
                        self.paths == Some(*v),
                        forall|k: int| 0 <= k < i ==> (#[trigger] v@[k])@.nodes.len() <= i32::MAX,
                    decreases v@.len() - i,
                {
                    if v[i].nodes.len() > max {
                        assert(list(self@.paths)[i as int] == v@[i as int]@);
                        return false;
                    }
                    i = i + 1;
                }
                assert forall|k: int| 0 <= k < list(self@.paths).len() implies (#[trigger] list(
                    self@.paths,
                )[k]).nodes.len() <= i32::MAX by {
                    assert(list(self@.paths)[k] == v@[k]@);
                }
            },
            None => {},
        }
        true
    }

    /// Appends the fields before the file names.
    pub fn writeHead(&self, to: &mut Vec<u8>)
        requires
            self.files@.len() <= i32::MAX,
        ensures
            final(to)@ == old(to)@ + ser_head(self@),
    {
        write_i32(to, self.version);
        write_i32(to, self.xMax);
        write_i32(to, self.yMax);
        if self.version >= 8 {
            write_i32(to, self.actIndex);
            if self.version >= 10 {
                write_i32(to, self.tagType);
            }
        }
        write_i32(to, self.files.len() as i32);
        assert(to@ =~= old(to)@ + ser_head(self@));
    }

    /// Appends the fields between the file names and the layers.
    pub fn writeMid(&self, to: &mut Vec<u8>)
        requires
            9 <= self.version <= 13 ==> self.unknown is Some,
        ensures
            final(to)@ == old(to)@ + ser_mid(self@),
    {
        if self.version >= 9 && self.version <= 13 {
            match &self.unknown {
                Some(u) => {
                    write_all(to, u.as_slice());
                },
                None => {},
            }
        }
        write_i32(to, self.numWallLayers);
        if self.version >= 16 {
            write_i32(to, self.numFloors);
        }
        assert(to@ =~= old(to)@ + ser_mid(self@));
    }

    /// Appends the list of objects with its count.
    pub fn writeObjectList(&self, to: &mut Vec<u8>)
        requires
            list(self@.objects).len() <= i32::MAX,
        ensures
            final(to)@ == old(to)@ + ser_object_list(self@),
    {
        match &self.objects {
            Some(objects) => {
                writeObjects(to, objects);
            },
            None => {
                write_i32(to, 0);
                assert(to@ =~= old(to)@ + i32_to_le(0) + ser_objects(Seq::empty(), 0));
            },
        }
    }

    /// Appends the list of groups with its count, where the version and the
    /// tag type have one.
    pub fn writeGroupList(&self, to: &mut Vec<u8>)
        requires
            list(self@.groups).len() <= i32::MAX,
        ensures
            final(to)@ == old(to)@ + ser_group_list(self@),
    {
        if self.version >= 12 && existsTagLayer(self.tagType) {
            if self.version >= 18 {
                to.writeZeros(4);
            }
            let ghost s = to@;
            match &self.groups {
                Some(groups) => {
                    writeGroups(to, groups, self.version);
                },
                None => {
                    write_i32(to, 0);
                    assert(to@ =~= s + i32_to_le(0) + ser_groups(
                        Seq::empty(),
                        self.version as int,
                        0,
                    ));
                },
            }
            assert(to@ =~= old(to)@ + ser_group_list(self@));
        } else {
            assert(to@ =~= old(to)@ + ser_group_list(self@));
        }
    }

    /// Appends the list of paths with its count, where the version has one.
    pub fn writePathList(&self, to: &mut Vec<u8>)
        requires
            list(self@.paths).len() <= i32::MAX,
            forall|i: int|
                0 <= i < list(self@.paths).len() ==> (#[trigger] list(self@.paths)[i]).nodes.len()
                    <= i32::MAX,
        ensures
            final(to)@ == old(to)@ + ser_path_list(self@),
    {
        if self.version >= 14 {
            match &self.paths {
                Some(paths) => {
                    assert forall|i: int| 0 <= i < paths@.len() implies (#[trigger] paths@[i])@.nodes.len()
                        <= i32::MAX by {
                        assert(list(self@.paths)[i] == paths@[i]@);
                    }
                    writePaths(to, paths, self.version);
                    assert(list(self@.paths) =~= Seq::new(paths@.len(), |i: int| paths@[i]@));
                },
                None => {
                    write_i32(to, 0);
                    assert(to@ =~= old(to)@ + i32_to_le(0) + ser_paths(
                        Seq::empty(),
                        self.version as int,
                        0,
                    ));
                },
            }
        } else {
            assert(to@ =~= old(to)@ + ser_path_list(self@));
        }
    }

    /// Appends the container that holds this map to `to`.
    pub fn writeTo(&self, to: &mut Vec<u8>)
        requires
            writable(self@),
        ensures
            final(to)@ == old(to)@ + serialize(self@),
    {
        self.writeHead(to);
        writeFiles(to, &self.files);
        self.writeMid(to);
        writeLayers(to, &self.layers);
        self.writeObjectList(to);
        self.writeGroupList(to);
        self.writePathList(to);
        proof {
            lemma_concat7(
                old(to)@,
                ser_head(self@),
                ser_files(self@.files, self@.files.len() as int),
                ser_mid(self@),
                ser_layers(self@.layers, self@.layers.len() as int),
                ser_object_list(self@),
                ser_group_list(self@),
                ser_path_list(self@),
            );
        }
    }
}

/// Appending seven parts one by one appends their concatenation.
pub proof fn lemma_concat7(
    s: Seq<u8>,
    a: Seq<u8>,
    b: Seq<u8>,
    c: Seq<u8>,
    d: Seq<u8>,
    e: Seq<u8>,
    f: Seq<u8>,
    g: Seq<u8>,
)
    ensures
        s + a + b + c + d + e + f + g == s + (a + b + c + d + e + f + g),
{
    assert(s + a + b + c + d + e + f + g =~= s + (a + b + c + d + e + f + g));
}

/// Appends the file names, each followed by a zero byte.
pub fn writeFiles(to: &mut Vec<u8>, files: &Vec<String>)
    ensures
        final(to)@ == old(to)@ + ser_files(files.deep_view(), files@.len() as int),
{
    let ghost views = files.deep_view();
    let mut i: usize = 0;
    assert(to@ =~= old(to)@ + ser_files(views, 0));
    while i < files.len()
        invariant
            i <= files@.len(),
            views == files.deep_view(),
            to@ == old(to)@ + ser_files(views, i as int),
        decreases files@.len() - i,
    {
        let name = files[i].as_str().as_bytes();
        assert(views[i as int] == files@[i as int]@);
        write_all(to, name);
        write_u8(to, 0u8);
        i = i + 1;
        assert(to@ =~= old(to)@ + ser_files(views, i as int));
    }
}

/// Appends the cells of a layer.
pub fn writeCells(to: &mut Vec<u8>, layer: &Vec<u32>)
    ensures
        final(to)@ == old(to)@ + ser_cells(layer@, layer@.len() as int),
{
    let mut k: usize = 0;
    assert(to@ =~= old(to)@ + ser_cells(layer@, 0));
    while k < layer.len()
        invariant
            k <= layer@.len(),
            to@ == old(to)@ + ser_cells(layer@, k as int),
        decreases layer@.len() - k,
    {
        write_u32(to, layer[k]);
        k = k + 1;
        assert(to@ =~= old(to)@ + ser_cells(layer@, k as int));
    }
}

/// Appends the layers.
pub fn writeLayers(to: &mut Vec<u8>, layers: &Vec<Vec<u32>>)
    ensures
        final(to)@ == old(to)@ + ser_layers(layers.deep_view(), layers@.len() as int),
{
    let ghost views = layers.deep_view();
    let mut i: usize = 0;
    assert(to@ =~= old(to)@ + ser_layers(views, 0));
    while i < layers.len()
        invariant
            i <= layers@.len(),
            views == layers.deep_view(),
            to@ == old(to)@ + ser_layers(views, i as int),
        decreases layers@.len() - i,
    {
        assert(views[i as int] == layers@[i as int]@);
        writeCells(to, &layers[i]);
        i = i + 1;
        assert(to@ =~= old(to)@ + ser_layers(views, i as int));
    }
}

/// Appends an object.
pub fn writeObject(to: &mut Vec<u8>, o: &Object)
    ensures
        final(to)@ == old(to)@ + ser_object(*o),
{
    write_i32(to, o.type_);
    write_i32(to, o.id);
    write_i32(to, o.x);
    write_i32(to, o.y);
    write_i32(to, o.flags);
    assert(to@ =~= old(to)@ + ser_object(*o));
}

/// Appends the number of the objects and the objects.
pub fn writeObjects(to: &mut Vec<u8>, objects: &Vec<Object>)
    requires
        objects@.len() <= i32::MAX,
    ensures
        final(to)@ == old(to)@ + i32_to_le(objects@.len() as int) + ser_objects(
            objects@,
            objects@.len() as int,
        ),
{
    write_i32(to, objects.len() as i32);
    let ghost before = to@;
    let mut i: usize = 0;
    assert(to@ =~= before + ser_objects(objects@, 0));
    while i < objects.len()
        invariant
            i <= objects@.len(),
            to@ == before + ser_objects(objects@, i as int),
        decreases objects@.len() - i,
    {
        writeObject(to, &objects[i]);
        i = i + 1;
        assert(to@ =~= before + ser_objects(objects@, i as int));
    }
}

/// Appends a group.
pub fn writeGroup(to: &mut Vec<u8>, g: &Group, version: i32)
    ensures
        final(to)@ == old(to)@ + ser_group(*g, version as int),
{
    write_i32(to, g.x);
    write_i32(to, g.y);
    write_i32(to, g.width);
    write_i32(to, g.height);
    if version >= 13 {
        write_i32(to, g.unknown);
    }
    assert(to@ =~= old(to)@ + ser_group(*g, version as int));
}

/// Appends the number of the groups and the groups.
pub fn writeGroups(to: &mut Vec<u8>, groups: &Vec<Group>, version: i32)
    requires
        groups@.len() <= i32::MAX,
    ensures
        final(to)@ == old(to)@ + i32_to_le(groups@.len() as int) + ser_groups(
            groups@,
            version as int,
            groups@.len() as int,
        ),
{
    write_i32(to, groups.len() as i32);
    let ghost before = to@;
    let mut i: usize = 0;
    assert(to@ =~= before + ser_groups(groups@, version as int, 0));
    while i < groups.len()
        invariant
            i <= groups@.len(),
            to@ == before + ser_groups(groups@, version as int, i as int),
        decreases groups@.len() - i,
    {
        writeGroup(to, &groups[i], version);
        i = i + 1;
        assert(to@ =~= before + ser_groups(groups@, version as int, i as int));
    }
}

/// Appends a node.
pub fn writeNode(to: &mut Vec<u8>, n: &Node, version: i32)
    ensures
        final(to)@ == old(to)@ + ser_node(*n, version as int),
{
    write_i32(to, n.x);
    write_i32(to, n.y);
    if version >= 15 {
        write_i32(to, n.action);
    }
    assert(to@ =~= old(to)@ + ser_node(*n, version as int));
}

/// Appends a path.
pub fn writePath(to: &mut Vec<u8>, p: &Path, version: i32)
    requires
        p.nodes@.len() <= i32::MAX,
    ensures
        final(to)@ == old(to)@ + ser_path(p@, version as int),
{
    write_i32(to, p.nodes.len() as i32);
    write_i32(to, p.x);
    write_i32(to, p.y);
    let ghost mid = to@;
    let mut k: usize = 0;
    assert(to@ =~= mid + ser_nodes(p.nodes@, version as int, 0));
    while k < p.nodes.len()
        invariant
            k <= p.nodes@.len(),
            to@ == mid + ser_nodes(p.nodes@, version as int, k as int),
        decreases p.nodes@.len() - k,
    {
        writeNode(to, &p.nodes[k], version);
        k = k + 1;
        assert(to@ =~= mid + ser_nodes(p.nodes@, version as int, k as int));
    }
    assert(to@ =~= old(to)@ + ser_path(p@, version as int));
}

/// Appends the number of the paths and the paths.
pub fn writePaths(to: &mut Vec<u8>, paths: &Vec<Path>, version: i32)
    requires
        paths@.len() <= i32::MAX,
        forall|i: int| 0 <= i < paths@.len() ==> (#[trigger] paths@[i])@.nodes.len() <= i32::MAX,
    ensures
        final(to)@ == old(to)@ + i32_to_le(paths@.len() as int) + ser_paths(
            Seq::new(paths@.len(), |i: int| paths@[i]@),
            version as int,
            paths@.len() as int,
        ),
{
    let ghost views = Seq::new(paths@.len(), |i: int| paths@[i]@);
    write_i32(to, paths.len() as i32);
    let ghost before = to@;
    let mut i: usize = 0;
    assert(to@ =~= before + ser_paths(views, version as int, 0));
    while i < paths.len()
        invariant
            i <= paths@.len(),
            views == Seq::new(paths@.len(), |i: int| paths@[i]@),
            forall|i: int| 0 <= i < paths@.len() ==> (#[trigger] paths@[i])@.nodes.len() <= i32::MAX,
            to@ == before + ser_paths(views, version as int, i as int),
        decreases paths@.len() - i,
    {
        writePath(to, &paths[i], version);
        i = i + 1;
        assert(to@ =~= before + ser_paths(views, version as int, i as int));
    }
}

} // verus!
