//! A map that is written and read again is the same map.

use crate::cursor::{bytes_at, fits, i32_at, lemma_arr, u32s_at};
use crate::ds1::parse::{
    cell_count, group_at, group_size, group_step, groups_len, head_len, layer_count,
    lemma_first_nul, mid_len, node_at, node_size, nodes_len, object_at, parse, parse_files,
    parse_group_list,
    parse_groups, parse_head, parse_layers, parse_mid, parse_objects, parse_path_list,
    parse_paths, parse_rest, path_at, GroupsRead, Head, Mid,
};
use crate::ds1::{
    exists_tag_layer, list, ser_cells, ser_files, ser_group, ser_group_list, ser_groups, ser_head,
    ser_layers, ser_mid, ser_node, ser_nodes, ser_object, ser_object_list, ser_objects, ser_path,
    ser_path_list, ser_paths, serialize, Error, Group, Node, Object, PathView, RootView,
};
use crate::le::{lemma_le_len, 
    all_zero, i32_to_le, lemma_i32_le_roundtrip, lemma_u32_le_roundtrip, u32_to_le, zeros,
};
use vstd::prelude::*;
use vstd::utf8::{encode_utf8, encode_utf8_decode_utf8, encode_utf8_valid_utf8};

verus! {

/// The bytes of the name hold no zero byte.
pub open spec fn name_ok(name: Seq<char>) -> bool {
    forall|i: int| 0 <= i < encode_utf8(name).len() ==> encode_utf8(name)[i] != 0
}

/// The layers are as many, and as long, as the sizes of the map say.
pub open spec fn layers_consistent(m: RootView) -> bool {
    let count = layer_count(m.numWallLayers as int, m.numFloors as int, m.tagType);
    let cells = cell_count(m.xMax as int, m.yMax as int);
    &&& m.layers.len() == if count >= 0 {
        count
    } else {
        0
    }
    &&& count >= 1 ==> cells >= 0
    &&& forall|i: int| 0 <= i < m.layers.len() ==> (#[trigger] m.layers[i]).len() == cells
}

/// The list of objects holds something where it is there.
pub open spec fn objects_consistent(m: RootView) -> bool {
    m.objects is Some ==> 1 <= m.objects->Some_0.len() <= i32::MAX
}

/// The list of groups is there only where the version and the tag type
/// have one, holds something where it is there, and before version 13 the
/// last field of every group is zero.
pub open spec fn groups_consistent(m: RootView) -> bool {
    m.groups is Some ==> {
        &&& m.version >= 12 && exists_tag_layer(m.tagType)
        &&& 1 <= m.groups->Some_0.len() <= i32::MAX
        &&& m.version < 13 ==> forall|i: int|
            0 <= i < m.groups->Some_0.len() ==> (#[trigger] m.groups->Some_0[i]).unknown == 0
    }
}

/// Before version 15 the action of every node of the path is 1.
pub open spec fn path_consistent(p: PathView, version: int) -> bool {
    &&& p.nodes.len() <= i32::MAX
    &&& version < 15 ==> forall|j: int| 0 <= j < p.nodes.len() ==> (#[trigger] p.nodes[j]).action == 1
}

/// The list of paths is there only from version 14 on, holds something
/// where it is there, and before version 15 the action of every node is 1.
pub open spec fn paths_consistent(m: RootView) -> bool {
    m.paths is Some ==> {
        &&& m.version >= 14
        &&& 1 <= m.paths->Some_0.len() <= i32::MAX
        &&& forall|i: int|
            0 <= i < m.paths->Some_0.len() ==> path_consistent(
                #[trigger] m.paths->Some_0[i],
                m.version as int,
            )
    }
}

/// The file names hold no zero byte, and they are not too many.
pub open spec fn files_consistent(m: RootView) -> bool {
    &&& m.files.len() <= i32::MAX
    &&& forall|i: int| 0 <= i < m.files.len() ==> name_ok(#[trigger] m.files[i])
}

/// The fields that only some versions have hold, in the others, what those
/// read.
pub open spec fn fields_consistent(m: RootView) -> bool {
    &&& m.version >= 7
    &&& m.version < 8 ==> m.actIndex == 0
    &&& m.version < 10 ==> m.tagType == 0
    &&& m.unknown is Some <==> 9 <= m.version <= 13
    &&& m.version < 16 ==> m.numFloors == 1
}

/// The fields of the map agree with what its version can hold.
pub open spec fn consistent(m: RootView) -> bool {
    &&& fields_consistent(m)
    &&& files_consistent(m)
    &&& layers_consistent(m)
    &&& objects_consistent(m)
    &&& groups_consistent(m)
    &&& paths_consistent(m)
}

/// A number that lies at `o` in a block lies at `p + o` in a buffer that
/// holds the block at `p`.
pub proof fn lemma_field(s: Seq<u8>, p: int, block: Seq<u8>, o: int, v: int)
    requires
        fits(s, p, block.len() as int),
        bytes_at(s, p, block.len() as int) == block,
        0 <= o,
        o + 4 <= block.len(),
        block.subrange(o, o + 4) == i32_to_le(v),
        i32::MIN <= v <= i32::MAX,
    ensures
        i32_at(s, p + o) == v,
{
    lemma_le_len();
    lemma_i32_le_roundtrip(v, Seq::empty());
    assert(i32_to_le(v) + Seq::<u8>::empty() =~= i32_to_le(v));
    assert(bytes_at(s, p + o, 4) =~= block.subrange(o, o + 4));
}

/// A block that lies in a block lies in the buffer that holds the outer
/// one.
pub proof fn lemma_inner(s: Seq<u8>, p: int, block: Seq<u8>, o: int, n: int)
    requires
        fits(s, p, block.len() as int),
        bytes_at(s, p, block.len() as int) == block,
        0 <= o,
        0 <= n,
        o + n <= block.len(),
    ensures
        fits(s, p + o, n),
        bytes_at(s, p + o, n) == block.subrange(o, o + n),
{
    assert(bytes_at(s, p + o, n) =~= block.subrange(o, o + n));
}

/// The fields before the file names are read as they were written.
pub proof fn lemma_head(s: Seq<u8>, p: int, m: RootView)
    requires
        fields_consistent(m),
        m.files.len() <= i32::MAX,
        fits(s, p, ser_head(m).len() as int),
        bytes_at(s, p, ser_head(m).len() as int) == ser_head(m),
    ensures
        ser_head(m).len() == head_len(m.version as int),
        parse_head(s, p) == Ok::<Head, Error>(
            Head {
                version: m.version,
                xMax: m.xMax,
                yMax: m.yMax,
                actIndex: m.actIndex,
                tagType: m.tagType,
                numFiles: m.files.len() as i32,
            },
        ),
{
    lemma_le_len();
    let b = ser_head(m);
    let v = m.version as int;
    assert(b.len() == head_len(v));
    assert(b.subrange(0, 4) =~= i32_to_le(v));
    lemma_field(s, p, b, 0, v);
    assert(b.subrange(4, 8) =~= i32_to_le(m.xMax as int));
    lemma_field(s, p, b, 4, m.xMax as int);
    assert(b.subrange(8, 12) =~= i32_to_le(m.yMax as int));
    lemma_field(s, p, b, 8, m.yMax as int);
    if v >= 8 {
        assert(b.subrange(12, 16) =~= i32_to_le(m.actIndex as int));
        lemma_field(s, p, b, 12, m.actIndex as int);
    }
    if v >= 10 {
        assert(b.subrange(16, 20) =~= i32_to_le(m.tagType as int));
        lemma_field(s, p, b, 16, m.tagType as int);
    }
    assert(b.subrange(head_len(v) - 4, head_len(v)) =~= i32_to_le(m.files.len() as int));
    lemma_field(s, p, b, head_len(v) - 4, m.files.len() as int);
}

/// The bytes of fewer file names start the bytes of more.
pub proof fn lemma_ser_files_prefix(files: Seq<Seq<char>>, k: int, n: int)
    requires
        0 <= k <= n,
    ensures
        ser_files(files, k).len() <= ser_files(files, n).len(),
        ser_files(files, n).subrange(0, ser_files(files, k).len() as int) == ser_files(files, k),
    decreases n,
{
    lemma_le_len();
    if k < n {
        lemma_ser_files_prefix(files, k, n - 1);
        let a = ser_files(files, n - 1);
        let b = ser_files(files, n);
        assert(b.subrange(0, ser_files(files, k).len() as int) =~= a.subrange(
            0,
            ser_files(files, k).len() as int,
        ));
    } else {
        assert(ser_files(files, n).subrange(0, ser_files(files, n).len() as int) =~= ser_files(
            files,
            n,
        ));
    }
}

/// The file names are read as they were written.
pub proof fn lemma_files(s: Seq<u8>, p: int, files: Seq<Seq<char>>, k: int)
    requires
        0 <= k <= files.len(),
        forall|i: int| 0 <= i < files.len() ==> name_ok(#[trigger] files[i]),
        fits(s, p, ser_files(files, files.len() as int).len() as int),
        bytes_at(s, p, ser_files(files, files.len() as int).len() as int) == ser_files(
            files,
            files.len() as int,
        ),
    ensures
        parse_files(s, p, k) == Ok::<(Seq<Seq<char>>, int), crate::cursor::ReadError>(
            (files.subrange(0, k), p + ser_files(files, k).len()),
        ),
    decreases k,
{
    lemma_le_len();
    let n = files.len() as int;
    let all = ser_files(files, n);
    if k > 0 {
        lemma_files(s, p, files, k - 1);
        lemma_ser_files_prefix(files, k, n);
        lemma_ser_files_prefix(files, k - 1, k);
        let before = ser_files(files, k - 1);
        let name = encode_utf8(files[k - 1]);
        let q = p + before.len();
        let z = q + name.len();
        assert(ser_files(files, k) == before + name + seq![0u8]);
        // the bytes of the name and the zero byte lie at `q`
        assert forall|i: int| 0 <= i <= name.len() implies s[q + i] == (name + seq![0u8])[i] by {
            assert(s[q + i] == bytes_at(s, p, all.len() as int)[before.len() + i]);
            assert(all[before.len() + i] == ser_files(files, k)[before.len() + i]) by {
                assert(all.subrange(0, ser_files(files, k).len() as int)[before.len() + i]
                    == all[before.len() + i]);
            }
        }
        assert forall|j: int| q <= j < z implies s[j] != 0 by {
            assert(s[q + (j - q)] == (name + seq![0u8])[j - q]);
            assert(name_ok(files[k - 1]));
        }
        assert(s[z] == 0) by {
            assert(s[q + name.len()] == (name + seq![0u8])[name.len() as int]);
        }
        lemma_first_nul(s, q, z);
        assert(s.subrange(q, z) =~= name) by {
            assert forall|i: int| 0 <= i < name.len() implies s.subrange(q, z)[i] == name[i] by {
                assert(s[q + i] == (name + seq![0u8])[i]);
            }
        }
        encode_utf8_valid_utf8(files[k - 1]);
        encode_utf8_decode_utf8(files[k - 1]);
        assert(files.subrange(0, k - 1).push(files[k - 1]) =~= files.subrange(0, k));
    } else {
        assert(files.subrange(0, 0) =~= Seq::<Seq<char>>::empty());
    }
}

/// The fields between the file names and the layers are read as they were
/// written.
pub proof fn lemma_mid(s: Seq<u8>, p: int, m: RootView)
    requires
        fields_consistent(m),
        fits(s, p, ser_mid(m).len() as int),
        bytes_at(s, p, ser_mid(m).len() as int) == ser_mid(m),
    ensures
        ser_mid(m).len() == mid_len(m.version as int),
        parse_mid(s, p, m.version as int) == Ok::<Mid, crate::cursor::ReadError>(
            Mid { unknown: m.unknown, numWallLayers: m.numWallLayers, numFloors: m.numFloors },
        ),
{
    lemma_le_len();
    let b = ser_mid(m);
    let v = m.version as int;
    let o = if 9 <= v <= 13 {
        8int
    } else {
        0int
    };
    if 9 <= v <= 13 {
        let u = m.unknown->Some_0;
        assert(u@.len() == 8);
        lemma_inner(s, p, b, 0, 8);
        assert(b.subrange(0, 8) =~= u@);
        lemma_arr(u);
    }
    assert(b.len() == mid_len(v));
    assert(b.subrange(o, o + 4) =~= i32_to_le(m.numWallLayers as int));
    lemma_field(s, p, b, o, m.numWallLayers as int);
    if v >= 16 {
        assert(b.subrange(o + 4, o + 8) =~= i32_to_le(m.numFloors as int));
        lemma_field(s, p, b, o + 4, m.numFloors as int);
    }
}

/// The bytes of the first `k` cells are `4 k`, and they start the bytes of
/// more cells.
pub proof fn lemma_ser_cells(layer: Seq<u32>, k: int, n: int)
    requires
        0 <= k <= n,
    ensures
        ser_cells(layer, k).len() == 4 * k,
        ser_cells(layer, n).len() == 4 * n,
        ser_cells(layer, n).subrange(0, 4 * k) == ser_cells(layer, k),
    decreases n,
{
    lemma_le_len();
    if n > 0 {
        if k < n {
            lemma_ser_cells(layer, k, n - 1);
            assert(ser_cells(layer, n).subrange(0, 4 * k) =~= ser_cells(layer, n - 1).subrange(
                0,
                4 * k,
            ));
        } else {
            lemma_ser_cells(layer, n - 1, n - 1);
            assert(ser_cells(layer, n).subrange(0, 4 * n) =~= ser_cells(layer, n));
        }
    } else {
        assert(ser_cells(layer, 0).subrange(0, 0) =~= ser_cells(layer, 0));
    }
}

/// The cells of a layer are read as they were written.
pub proof fn lemma_cells(s: Seq<u8>, p: int, layer: Seq<u32>)
    requires
        fits(s, p, 4 * (layer.len() as int)),
        bytes_at(s, p, 4 * (layer.len() as int)) == ser_cells(layer, layer.len() as int),
    ensures
        u32s_at(s, p, layer.len()) == layer,
{
    lemma_le_len();
    let n = layer.len() as int;
    let all = ser_cells(layer, n);
    assert forall|i: int| 0 <= i < n implies u32s_at(s, p, layer.len())[i] == layer[i] by {
        lemma_ser_cells(layer, i + 1, n);
        lemma_ser_cells(layer, i, i + 1);
        let cell = u32_to_le(layer[i] as int);
        assert(ser_cells(layer, i + 1) == ser_cells(layer, i) + cell);
        lemma_u32_le_roundtrip(layer[i] as int, Seq::empty());
        assert(cell + Seq::<u8>::empty() =~= cell);
        assert(bytes_at(s, p + 4 * i, 4) =~= cell) by {
            assert forall|j: int| 0 <= j < 4 implies bytes_at(s, p + 4 * i, 4)[j] == cell[j] by {
                assert(s[p + 4 * i + j] == bytes_at(s, p, 4 * n)[4 * i + j]);
                assert(all[4 * i + j] == all.subrange(0, 4 * (i + 1))[4 * i + j]);
            }
        }
    }
    assert(u32s_at(s, p, layer.len()) =~= layer);
}

/// The bytes of the first `k` layers of `cells` cells each are `4 cells k`,
/// and they start the bytes of more layers.
pub proof fn lemma_ser_layers(layers: Seq<Seq<u32>>, cells: int, k: int, n: int)
    requires
        0 <= k <= n <= layers.len(),
        0 <= cells,
        forall|i: int| 0 <= i < layers.len() ==> (#[trigger] layers[i]).len() == cells,
    ensures
        ser_layers(layers, k).len() == 4 * cells * k,
        ser_layers(layers, n).len() == 4 * cells * n,
        ser_layers(layers, n).subrange(0, 4 * cells * k) == ser_layers(layers, k),
    decreases n,
{
    lemma_le_len();
    if n > 0 {
        lemma_ser_cells(layers[n - 1], 0, cells);
        assert(4 * cells * n == 4 * cells * (n - 1) + 4 * cells) by (nonlinear_arith);
        assert(4 * cells * k >= 0 && (k < n ==> 4 * cells * k <= 4 * cells * (n - 1)))
            by (nonlinear_arith)
            requires
                0 <= k <= n,
                0 <= cells,
        ;
        if k < n {
            lemma_ser_layers(layers, cells, k, n - 1);
            assert(ser_layers(layers, n).subrange(0, 4 * cells * k) =~= ser_layers(
                layers,
                n - 1,
            ).subrange(0, 4 * cells * k));
        } else {
            lemma_ser_layers(layers, cells, n - 1, n - 1);
            assert(ser_layers(layers, n).subrange(0, 4 * cells * n) =~= ser_layers(layers, n));
        }
    } else {
        assert(4 * cells * 0 == 0) by (nonlinear_arith);
        assert(ser_layers(layers, 0).subrange(0, 0) =~= ser_layers(layers, 0));
    }
}

/// The layers are read as they were written.
pub proof fn lemma_layers(s: Seq<u8>, p: int, m: RootView)
    requires
        layers_consistent(m),
        fits(s, p, ser_layers(m.layers, m.layers.len() as int).len() as int),
        bytes_at(s, p, ser_layers(m.layers, m.layers.len() as int).len() as int) == ser_layers(
            m.layers,
            m.layers.len() as int,
        ),
    ensures
        parse_layers(
            s,
            p,
            layer_count(m.numWallLayers as int, m.numFloors as int, m.tagType),
            cell_count(m.xMax as int, m.yMax as int),
        ) == Ok::<(Seq<Seq<u32>>, int), crate::cursor::ReadError>(
            (m.layers, p + ser_layers(m.layers, m.layers.len() as int).len()),
        ),
{
    lemma_le_len();
    let count = layer_count(m.numWallLayers as int, m.numFloors as int, m.tagType);
    let cells = cell_count(m.xMax as int, m.yMax as int);
    let n = m.layers.len() as int;
    let all = ser_layers(m.layers, n);
    if count <= 0 {
        assert(m.layers =~= Seq::<Seq<u32>>::empty());
    } else {
        lemma_ser_layers(m.layers, cells, n, n);
        let read = Seq::new(count as nat, |i: int| u32s_at(s, p + 4 * cells * i, cells as nat));
        assert forall|i: int| 0 <= i < n implies read[i] == m.layers[i] by {
            lemma_ser_layers(m.layers, cells, i + 1, n);
            lemma_ser_layers(m.layers, cells, i, i + 1);
            let layer = m.layers[i];
            lemma_ser_cells(layer, 0, cells);
            assert(4 * cells * (i + 1) == 4 * cells * i + 4 * cells) by (nonlinear_arith);
            assert(0 <= 4 * cells * i) by (nonlinear_arith)
                requires
                    0 <= i,
                    0 <= cells,
            ;
            assert(4 * cells * (i + 1) <= 4 * cells * n) by (nonlinear_arith)
                requires
                    i + 1 <= n,
                    0 <= cells,
            ;
            assert(all.len() == 4 * cells * n);
            assert(ser_layers(m.layers, i + 1) == ser_layers(m.layers, i) + ser_cells(
                layer,
                cells,
            ));
            assert(bytes_at(s, p + 4 * cells * i, 4 * cells) =~= ser_cells(layer, cells)) by {
                assert forall|j: int| 0 <= j < 4 * cells implies bytes_at(
                    s,
                    p + 4 * cells * i,
                    4 * cells,
                )[j] == ser_cells(layer, cells)[j] by {
                    assert(s[p + 4 * cells * i + j] == bytes_at(s, p, all.len() as int)[4 * cells
                        * i + j]);
                    assert(all[4 * cells * i + j] == all.subrange(0, 4 * cells * (i + 1))[4
                        * cells * i + j]);
                }
            }
            lemma_cells(s, p + 4 * cells * i, layer);
        }
        assert(read =~= m.layers);
    }
}

/// The numbers of an object are read as they were written.
pub proof fn lemma_object(s: Seq<u8>, p: int, o: Object)
    requires
        fits(s, p, 20),
        bytes_at(s, p, 20) == ser_object(o),
    ensures
        object_at(s, p) == o,
{
    lemma_le_len();
    let b = ser_object(o);
    assert(b.subrange(0, 4) =~= i32_to_le(o.type_ as int));
    lemma_field(s, p, b, 0, o.type_ as int);
    assert(b.subrange(4, 8) =~= i32_to_le(o.id as int));
    lemma_field(s, p, b, 4, o.id as int);
    assert(b.subrange(8, 12) =~= i32_to_le(o.x as int));
    lemma_field(s, p, b, 8, o.x as int);
    assert(b.subrange(12, 16) =~= i32_to_le(o.y as int));
    lemma_field(s, p, b, 12, o.y as int);
    assert(b.subrange(16, 20) =~= i32_to_le(o.flags as int));
    lemma_field(s, p, b, 16, o.flags as int);
}

/// The bytes of the first `k` objects are `20 k`, and they start the bytes
/// of more objects.
pub proof fn lemma_ser_objects(objects: Seq<Object>, k: int, n: int)
    requires
        0 <= k <= n,
    ensures
        ser_objects(objects, k).len() == 20 * k,
        ser_objects(objects, n).len() == 20 * n,
        ser_objects(objects, n).subrange(0, 20 * k) == ser_objects(objects, k),
    decreases n,
{
    lemma_le_len();
    if n > 0 {
        if k < n {
            lemma_ser_objects(objects, k, n - 1);
            assert(ser_objects(objects, n).subrange(0, 20 * k) =~= ser_objects(
                objects,
                n - 1,
            ).subrange(0, 20 * k));
        } else {
            lemma_ser_objects(objects, n - 1, n - 1);
            assert(ser_objects(objects, n).subrange(0, 20 * n) =~= ser_objects(objects, n));
        }
    } else {
        assert(ser_objects(objects, 0).subrange(0, 0) =~= ser_objects(objects, 0));
    }
}

/// Object `i` lies in the buffer where the objects before it end.
proof fn lemma_object_bytes(s: Seq<u8>, p: int, objects: Seq<Object>, i: int)
    requires
        0 <= i < objects.len(),
        fits(s, p, 20 * (objects.len() as int)),
        bytes_at(s, p, 20 * (objects.len() as int)) == ser_objects(objects, objects.len() as int),
    ensures
        fits(s, p + 20 * i, 20),
        bytes_at(s, p + 20 * i, 20) == ser_object(objects[i]),
{
    lemma_le_len();
    let n = objects.len() as int;
    let body = ser_objects(objects, n);
    lemma_ser_objects(objects, i + 1, n);
    lemma_ser_objects(objects, i, i + 1);
    assert(ser_objects(objects, i + 1) == ser_objects(objects, i) + ser_object(objects[i]));
    assert forall|j: int| 0 <= j < 20 implies bytes_at(s, p + 20 * i, 20)[j] == ser_object(
        objects[i],
    )[j] by {
        assert(s[p + 20 * i + j] == bytes_at(s, p, 20 * n)[20 * i + j]);
        assert(body[20 * i + j] == body.subrange(0, 20 * (i + 1))[20 * i + j]);
    }
    assert(bytes_at(s, p + 20 * i, 20) =~= ser_object(objects[i]));
}

/// The list of objects is read as it was written.
pub proof fn lemma_objects(s: Seq<u8>, p: int, m: RootView)
    requires
        objects_consistent(m),
        fits(s, p, ser_object_list(m).len() as int),
        bytes_at(s, p, ser_object_list(m).len() as int) == ser_object_list(m),
    ensures
        parse_objects(s, p) == Ok::<(Option<Seq<Object>>, int), crate::cursor::ReadError>(
            (m.objects, p + ser_object_list(m).len()),
        ),
{
    lemma_le_len();
    let objects = list(m.objects);
    let n = objects.len() as int;
    let b = ser_object_list(m);
    lemma_ser_objects(objects, n, n);
    assert(b.len() == 4 + 20 * n);
    assert(b.subrange(0, 4) =~= i32_to_le(n));
    lemma_field(s, p, b, 0, n);
    lemma_inner(s, p, b, 4, 20 * n);
    assert(b.subrange(4, 4 + 20 * n) =~= ser_objects(objects, n));
    let read = Seq::new(n as nat, |i: int| object_at(s, p + 4 + 20 * i));
    assert forall|i: int| 0 <= i < n implies read[i] == objects[i] by {
        lemma_object_bytes(s, p + 4, objects, i);
        lemma_object(s, p + 4 + 20 * i, objects[i]);
    }
    assert(read =~= objects);
}

/// The numbers of a group are read as they were written.
pub proof fn lemma_group(s: Seq<u8>, p: int, g: Group, version: int)
    requires
        fits(s, p, group_size(version)),
        bytes_at(s, p, group_size(version)) == ser_group(g, version),
        version < 13 ==> g.unknown == 0,
    ensures
        group_at(s, p, version) == g,
{
    lemma_le_len();
    let b = ser_group(g, version);
    assert(b.len() == group_size(version));
    assert(b.subrange(0, 4) =~= i32_to_le(g.x as int));
    lemma_field(s, p, b, 0, g.x as int);
    assert(b.subrange(4, 8) =~= i32_to_le(g.y as int));
    lemma_field(s, p, b, 4, g.y as int);
    assert(b.subrange(8, 12) =~= i32_to_le(g.width as int));
    lemma_field(s, p, b, 8, g.width as int);
    assert(b.subrange(12, 16) =~= i32_to_le(g.height as int));
    lemma_field(s, p, b, 12, g.height as int);
    if version >= 13 {
        assert(b.subrange(16, 20) =~= i32_to_le(g.unknown as int));
        lemma_field(s, p, b, 16, g.unknown as int);
    }
}

/// The bytes of the first `k` groups, and that they start the bytes of more
/// groups.
pub proof fn lemma_ser_groups(groups: Seq<Group>, version: int, k: int, n: int)
    requires
        0 <= k <= n,
    ensures
        ser_groups(groups, version, k).len() == groups_len(version, k),
        ser_groups(groups, version, n).len() == groups_len(version, n),
        ser_groups(groups, version, n).subrange(0, groups_len(version, k)) == ser_groups(
            groups,
            version,
            k,
        ),
    decreases n,
{
    lemma_le_len();
    if n > 0 {
        assert(ser_group(groups[n - 1], version).len() == group_size(version));
        if k < n {
            lemma_ser_groups(groups, version, k, n - 1);
            assert(ser_groups(groups, version, n).subrange(0, groups_len(version, k))
                =~= ser_groups(groups, version, n - 1).subrange(0, groups_len(version, k)));
        } else {
            lemma_ser_groups(groups, version, n - 1, n - 1);
            assert(ser_groups(groups, version, n).subrange(0, groups_len(version, n))
                =~= ser_groups(groups, version, n));
        }
    } else {
        assert(ser_groups(groups, version, 0).subrange(0, 0) =~= ser_groups(groups, version, 0));
    }
}

/// Group `k` lies in the buffer where the groups before it end.
proof fn lemma_group_bytes(s: Seq<u8>, p: int, groups: Seq<Group>, version: int, k: int)
    requires
        0 <= k < groups.len(),
        fits(s, p, groups_len(version, groups.len() as int)),
        bytes_at(s, p, groups_len(version, groups.len() as int)) == ser_groups(
            groups,
            version,
            groups.len() as int,
        ),
    ensures
        fits(s, p + groups_len(version, k), group_size(version)),
        p + groups_len(version, k) + 4 < s.len(),
        bytes_at(s, p + groups_len(version, k), group_size(version)) == ser_group(
            groups[k],
            version,
        ),
{
    lemma_le_len();
    let size = group_size(version);
    let n = groups.len() as int;
    let all = ser_groups(groups, version, n);
    let q = p + groups_len(version, k);
    lemma_ser_groups(groups, version, k + 1, n);
    lemma_ser_groups(groups, version, k, k + 1);
    assert(ser_groups(groups, version, k + 1) == ser_groups(groups, version, k) + ser_group(
        groups[k],
        version,
    ));
    assert forall|j: int| 0 <= j < size implies bytes_at(s, q, size)[j] == ser_group(
        groups[k],
        version,
    )[j] by {
        assert(s[q + j] == bytes_at(s, p, groups_len(version, n))[groups_len(version, k) + j]);
        assert(all[groups_len(version, k) + j] == all.subrange(0, groups_len(version, k + 1))[
            groups_len(version, k) + j]);
    }
    assert(bytes_at(s, q, size) =~= ser_group(groups[k], version));
}

/// The groups are read as they were written.
pub proof fn lemma_groups(s: Seq<u8>, p: int, groups: Seq<Group>, version: int, k: int)
    requires
        0 <= k <= groups.len(),
        version < 13 ==> forall|i: int| 0 <= i < groups.len() ==> (#[trigger] groups[i]).unknown == 0,
        fits(s, p, groups_len(version, groups.len() as int)),
        bytes_at(s, p, groups_len(version, groups.len() as int)) == ser_groups(
            groups,
            version,
            groups.len() as int,
        ),
    ensures
        parse_groups(s, p, version, k) == Ok::<GroupsRead, crate::cursor::ReadError>(
            GroupsRead {
                groups: groups.subrange(0, k),
                pos: p + groups_len(version, k),
                stopped: false,
            },
        ),
    decreases k,
{
    if k > 0 {
        lemma_groups(s, p, groups, version, k - 1);
        let q = p + groups_len(version, k - 1);
        let st = GroupsRead { groups: groups.subrange(0, k - 1), pos: q, stopped: false };
        lemma_group_bytes(s, p, groups, version, k - 1);
        lemma_group(s, q, groups[k - 1], version);
        assert(groups.subrange(0, k - 1).push(groups[k - 1]) =~= groups.subrange(0, k));
        assert(group_step(s, st, version) == Ok::<GroupsRead, crate::cursor::ReadError>(
            GroupsRead {
                groups: groups.subrange(0, k),
                pos: p + groups_len(version, k),
                stopped: false,
            },
        ));
    } else {
        assert(groups.subrange(0, 0) =~= Seq::<Group>::empty());
    }
}

/// The list of groups is read as it was written.
pub proof fn lemma_group_list(s: Seq<u8>, p: int, m: RootView)
    requires
        groups_consistent(m),
        fits(s, p, ser_group_list(m).len() as int),
        bytes_at(s, p, ser_group_list(m).len() as int) == ser_group_list(m),
    ensures
        parse_group_list(s, p, m.version as int, m.tagType) == Ok::<
            (Option<Seq<Group>>, int),
            crate::cursor::ReadError,
        >((m.groups, p + ser_group_list(m).len())),
{
    lemma_le_len();
    let v = m.version as int;
    if v >= 12 && exists_tag_layer(m.tagType) {
        let groups = list(m.groups);
        let n = groups.len() as int;
        let size = group_size(v);
        let b = ser_group_list(m);
        let o = if v >= 18 {
            4int
        } else {
            0int
        };
        lemma_ser_groups(groups, v, n, n);
        let total = groups_len(v, n);
        assert(b.len() == o + 4 + total);
        if v >= 18 {
            lemma_inner(s, p, b, 0, 4);
            assert(b.subrange(0, 4) =~= zeros(4));
            assert(all_zero(bytes_at(s, p, 4)));
        }
        assert(b.subrange(o, o + 4) =~= i32_to_le(n));
        lemma_field(s, p, b, o, n);
        lemma_inner(s, p, b, o + 4, total);
        assert(b.subrange(o + 4, o + 4 + total) =~= ser_groups(groups, v, n));
        lemma_groups(s, p + o + 4, groups, v, n);
        assert(groups.subrange(0, n) =~= groups);
    }
}

/// The numbers of a node are read as they were written.
pub proof fn lemma_node(s: Seq<u8>, p: int, node: Node, version: int)
    requires
        fits(s, p, node_size(version)),
        bytes_at(s, p, node_size(version)) == ser_node(node, version),
        version < 15 ==> node.action == 1,
    ensures
        node_at(s, p, version) == node,
{
    lemma_le_len();
    let b = ser_node(node, version);
    assert(b.len() == node_size(version));
    assert(b.subrange(0, 4) =~= i32_to_le(node.x as int));
    lemma_field(s, p, b, 0, node.x as int);
    assert(b.subrange(4, 8) =~= i32_to_le(node.y as int));
    lemma_field(s, p, b, 4, node.y as int);
    if version >= 15 {
        assert(b.subrange(8, 12) =~= i32_to_le(node.action as int));
        lemma_field(s, p, b, 8, node.action as int);
    }
}

/// The bytes of the first `k` nodes, and that they start the bytes of more
/// nodes.
pub proof fn lemma_ser_nodes(nodes: Seq<Node>, version: int, k: int, n: int)
    requires
        0 <= k <= n,
    ensures
        ser_nodes(nodes, version, k).len() == nodes_len(version, k),
        ser_nodes(nodes, version, n).len() == nodes_len(version, n),
        ser_nodes(nodes, version, n).subrange(0, nodes_len(version, k)) == ser_nodes(
            nodes,
            version,
            k,
        ),
    decreases n,
{
    lemma_le_len();
    if n > 0 {
        assert(ser_node(nodes[n - 1], version).len() == node_size(version));
        if k < n {
            lemma_ser_nodes(nodes, version, k, n - 1);
            assert(ser_nodes(nodes, version, n).subrange(0, nodes_len(version, k)) =~= ser_nodes(
                nodes,
                version,
                n - 1,
            ).subrange(0, nodes_len(version, k)));
        } else {
            lemma_ser_nodes(nodes, version, n - 1, n - 1);
            assert(ser_nodes(nodes, version, n).subrange(0, nodes_len(version, n)) =~= ser_nodes(
                nodes,
                version,
                n,
            ));
        }
    } else {
        assert(ser_nodes(nodes, version, 0).subrange(0, 0) =~= ser_nodes(nodes, version, 0));
    }
}

/// Node `i` of a path lies in the buffer where the nodes before it end.
proof fn lemma_node_bytes(s: Seq<u8>, q: int, path: PathView, version: int, i: int)
    requires
        0 <= i < path.nodes.len(),
        fits(s, q, ser_path(path, version).len() as int),
        bytes_at(s, q, ser_path(path, version).len() as int) == ser_path(path, version),
    ensures
        fits(s, q + 12 + nodes_len(version, i), node_size(version)),
        bytes_at(s, q + 12 + nodes_len(version, i), node_size(version)) == ser_node(
            path.nodes[i],
            version,
        ),
{
    lemma_le_len();
    let b = ser_path(path, version);
    let n = path.nodes.len() as int;
    let size = node_size(version);
    let body = ser_nodes(path.nodes, version, n);
    let at = nodes_len(version, i);
    lemma_ser_nodes(path.nodes, version, n, n);
    lemma_ser_nodes(path.nodes, version, i + 1, n);
    lemma_ser_nodes(path.nodes, version, i, i + 1);
    let node = path.nodes[i];
    assert(b.len() == 12 + nodes_len(version, n));
    assert(ser_nodes(path.nodes, version, i + 1) == ser_nodes(path.nodes, version, i) + ser_node(
        node,
        version,
    ));
    assert forall|j: int| 0 <= j < size implies bytes_at(s, q + 12 + at, size)[j] == ser_node(
        node,
        version,
    )[j] by {
        assert(s[q + 12 + at + j] == bytes_at(s, q, b.len() as int)[12 + at + j]);
        assert(b[12 + at + j] == body[at + j]);
        assert(body[at + j] == body.subrange(0, nodes_len(version, i + 1))[at + j]);
    }
    assert(bytes_at(s, q + 12 + at, size) =~= ser_node(node, version));
}

/// A path is read as it was written.
pub proof fn lemma_path(s: Seq<u8>, q: int, path: PathView, version: int)
    requires
        path_consistent(path, version),
        fits(s, q, ser_path(path, version).len() as int),
        bytes_at(s, q, ser_path(path, version).len() as int) == ser_path(path, version),
    ensures
        path_at(s, q, version) == Ok::<(PathView, int), crate::cursor::ReadError>(
            (path, q + ser_path(path, version).len()),
        ),
{
    lemma_le_len();
    let b = ser_path(path, version);
    let n = path.nodes.len() as int;
    lemma_ser_nodes(path.nodes, version, n, n);
    assert(b.len() == 12 + nodes_len(version, n));
    assert(b.subrange(0, 4) =~= i32_to_le(n));
    lemma_field(s, q, b, 0, n);
    assert(b.subrange(4, 8) =~= i32_to_le(path.x as int));
    lemma_field(s, q, b, 4, path.x as int);
    assert(b.subrange(8, 12) =~= i32_to_le(path.y as int));
    lemma_field(s, q, b, 8, path.y as int);
    let read = Seq::new(n as nat, |i: int| node_at(s, q + 12 + nodes_len(version, i), version));
    assert forall|i: int| 0 <= i < n implies read[i] == path.nodes[i] by {
        lemma_node_bytes(s, q, path, version, i);
        lemma_node(s, q + 12 + nodes_len(version, i), path.nodes[i], version);
    }
    assert(read =~= path.nodes);
}

/// The bytes of fewer paths start the bytes of more.
pub proof fn lemma_ser_paths_prefix(paths: Seq<PathView>, version: int, k: int, n: int)
    requires
        0 <= k <= n,
    ensures
        ser_paths(paths, version, k).len() <= ser_paths(paths, version, n).len(),
        ser_paths(paths, version, n).subrange(0, ser_paths(paths, version, k).len() as int)
            == ser_paths(paths, version, k),
    decreases n,
{
    lemma_le_len();
    let short = ser_paths(paths, version, k);
    if k < n {
        lemma_ser_paths_prefix(paths, version, k, n - 1);
        assert(ser_paths(paths, version, n).subrange(0, short.len() as int) =~= ser_paths(
            paths,
            version,
            n - 1,
        ).subrange(0, short.len() as int));
    } else {
        assert(short.subrange(0, short.len() as int) =~= short);
    }
}

/// Path `k` lies in the buffer where the paths before it end.
proof fn lemma_path_bytes(s: Seq<u8>, p: int, paths: Seq<PathView>, version: int, k: int)
    requires
        0 <= k < paths.len(),
        fits(s, p, ser_paths(paths, version, paths.len() as int).len() as int),
        bytes_at(s, p, ser_paths(paths, version, paths.len() as int).len() as int) == ser_paths(
            paths,
            version,
            paths.len() as int,
        ),
    ensures
        fits(
            s,
            p + ser_paths(paths, version, k).len(),
            ser_path(paths[k], version).len() as int,
        ),
        bytes_at(
            s,
            p + ser_paths(paths, version, k).len(),
            ser_path(paths[k], version).len() as int,
        ) == ser_path(paths[k], version),
        ser_paths(paths, version, k + 1).len() == ser_paths(paths, version, k).len() + ser_path(
            paths[k],
            version,
        ).len(),
{
    lemma_le_len();
    let n = paths.len() as int;
    let all = ser_paths(paths, version, n);
    lemma_ser_paths_prefix(paths, version, k + 1, n);
    lemma_ser_paths_prefix(paths, version, k, k + 1);
    let before = ser_paths(paths, version, k);
    let one = ser_path(paths[k], version);
    let q = p + before.len();
    assert(ser_paths(paths, version, k + 1) == before + one);
    assert forall|j: int| 0 <= j < one.len() implies bytes_at(s, q, one.len() as int)[j]
        == one[j] by {
        assert(s[q + j] == bytes_at(s, p, all.len() as int)[before.len() + j]);
        assert(all[before.len() + j] == all.subrange(
            0,
            ser_paths(paths, version, k + 1).len() as int,
        )[before.len() + j]);
    }
    assert(bytes_at(s, q, one.len() as int) =~= one);
}

/// The paths are read as they were written.
pub proof fn lemma_paths(s: Seq<u8>, p: int, paths: Seq<PathView>, version: int, k: int)
    requires
        0 <= k <= paths.len(),
        forall|i: int| 0 <= i < paths.len() ==> path_consistent(#[trigger] paths[i], version),
        fits(s, p, ser_paths(paths, version, paths.len() as int).len() as int),
        bytes_at(s, p, ser_paths(paths, version, paths.len() as int).len() as int) == ser_paths(
            paths,
            version,
            paths.len() as int,
        ),
    ensures
        parse_paths(s, p, version, k) == Ok::<(Seq<PathView>, int), crate::cursor::ReadError>(
            (paths.subrange(0, k), p + ser_paths(paths, version, k).len()),
        ),
    decreases k,
{
    lemma_le_len();
    if k > 0 {
        lemma_paths(s, p, paths, version, k - 1);
        lemma_path_bytes(s, p, paths, version, k - 1);
        let q = p + ser_paths(paths, version, k - 1).len();
        assert(path_consistent(paths[k - 1], version));
        lemma_path(s, q, paths[k - 1], version);
        assert(paths.subrange(0, k - 1).push(paths[k - 1]) =~= paths.subrange(0, k));
    } else {
        assert(paths.subrange(0, 0) =~= Seq::<PathView>::empty());
    }
}

/// The list of paths is read as it was written.
pub proof fn lemma_path_list(s: Seq<u8>, p: int, m: RootView)
    requires
        paths_consistent(m),
        fits(s, p, ser_path_list(m).len() as int),
        bytes_at(s, p, ser_path_list(m).len() as int) == ser_path_list(m),
    ensures
        parse_path_list(s, p, m.version as int) == Ok::<
            (Option<Seq<PathView>>, int),
            crate::cursor::ReadError,
        >((m.paths, p + ser_path_list(m).len())),
{
    lemma_le_len();
    let v = m.version as int;
    if v >= 14 {
        let paths = list(m.paths);
        let n = paths.len() as int;
        let b = ser_path_list(m);
        let body = ser_paths(paths, v, n);
        assert(b.len() == 4 + body.len());
        assert(b.subrange(0, 4) =~= i32_to_le(n));
        lemma_field(s, p, b, 0, n);
        lemma_inner(s, p, b, 4, body.len() as int);
        assert(b.subrange(4, 4 + body.len() as int) =~= body);
        lemma_paths(s, p + 4, paths, v, n);
        assert(paths.subrange(0, n) =~= paths);
    }
}

/// Where the parts of a buffer lie that is made of five parts from `p` on.
pub proof fn lemma_parts5(s: Seq<u8>, p: int, a: Seq<u8>, b: Seq<u8>, c: Seq<u8>, d: Seq<u8>, e: Seq<u8>)
    requires
        0 <= p <= s.len(),
        s.subrange(p, s.len() as int) == a + b + c + d + e,
    ensures
        s.len() == p + a.len() + b.len() + c.len() + d.len() + e.len(),
        bytes_at(s, p, a.len() as int) == a,
        bytes_at(s, p + a.len(), b.len() as int) == b,
        bytes_at(s, p + a.len() + b.len(), c.len() as int) == c,
        bytes_at(s, p + a.len() + b.len() + c.len(), d.len() as int) == d,
        bytes_at(s, p + a.len() + b.len() + c.len() + d.len(), e.len() as int) == e,
{
    let t = a + b + c + d + e;
    assert(t.len() == s.len() - p);
    assert forall|i: int| 0 <= i < t.len() implies s[p + i] == t[i] by {
        assert(s.subrange(p, s.len() as int)[i] == s[p + i]);
    }
    assert(bytes_at(s, p, a.len() as int) =~= a) by {
        assert forall|i: int| 0 <= i < a.len() implies s[p + i] == a[i] by {
            assert(t[i] == a[i]);
        }
    }
    assert(bytes_at(s, p + a.len(), b.len() as int) =~= b) by {
        assert forall|i: int| 0 <= i < b.len() implies s[p + a.len() + i] == b[i] by {
            assert(t[a.len() + i] == b[i]);
        }
    }
    assert(bytes_at(s, p + a.len() + b.len(), c.len() as int) =~= c) by {
        assert forall|i: int| 0 <= i < c.len() implies s[p + a.len() + b.len() + i] == c[i] by {
            assert(t[a.len() + b.len() + i] == c[i]);
        }
    }
    assert(bytes_at(s, p + a.len() + b.len() + c.len(), d.len() as int) =~= d) by {
        assert forall|i: int| 0 <= i < d.len() implies s[p + a.len() + b.len() + c.len() + i]
            == d[i] by {
            assert(t[a.len() + b.len() + c.len() + i] == d[i]);
        }
    }
    assert(bytes_at(s, p + a.len() + b.len() + c.len() + d.len(), e.len() as int) =~= e) by {
        assert forall|i: int| 0 <= i < e.len() implies s[p + a.len() + b.len() + c.len()
            + d.len() + i] == e[i] by {
            assert(t[a.len() + b.len() + c.len() + d.len() + i] == e[i]);
        }
    }
}

/// What follows the file names is read as it was written.
pub proof fn lemma_rest(s: Seq<u8>, p: int, m: RootView, h: Head)
    requires
        consistent(m),
        h.version == m.version,
        h.xMax == m.xMax,
        h.yMax == m.yMax,
        h.actIndex == m.actIndex,
        h.tagType == m.tagType,
        0 <= p <= s.len(),
        s.subrange(p, s.len() as int) == ser_mid(m) + ser_layers(m.layers, m.layers.len() as int)
            + ser_object_list(m) + ser_group_list(m) + ser_path_list(m),
    ensures
        parse_rest(s, h, m.files, p) == Ok::<(RootView, int), crate::cursor::ReadError>(
            (m, s.len() as int),
        ),
{
    lemma_le_len();
    let mid = ser_mid(m);
    let layers = ser_layers(m.layers, m.layers.len() as int);
    let objects = ser_object_list(m);
    let groups = ser_group_list(m);
    let paths = ser_path_list(m);
    lemma_parts5(s, p, mid, layers, objects, groups, paths);
    lemma_mid(s, p, m);
    let at_layers = p + mid.len();
    lemma_layers(s, at_layers, m);
    let at_objects = at_layers + layers.len();
    lemma_objects(s, at_objects, m);
    let at_groups = at_objects + objects.len();
    lemma_group_list(s, at_groups, m);
    let at_paths = at_groups + groups.len();
    lemma_path_list(s, at_paths, m);
    let got = parse_rest(s, h, m.files, p);
    assert(got is Ok);
    assert(got->Ok_0.1 == s.len());
    assert(got->Ok_0.0 == m);
}

/// Where the head, the file names and the rest lie in the container.
pub proof fn lemma_split(m: RootView)
    ensures
        ({
            let s = serialize(m);
            let head = ser_head(m);
            let files = ser_files(m.files, m.files.len() as int);
            let rest = ser_mid(m) + ser_layers(m.layers, m.layers.len() as int) + ser_object_list(
                m,
            ) + ser_group_list(m) + ser_path_list(m);
            &&& s.len() == head.len() + files.len() + rest.len()
            &&& bytes_at(s, 0, head.len() as int) == head
            &&& bytes_at(s, head.len() as int, files.len() as int) == files
            &&& s.subrange((head.len() + files.len()) as int, s.len() as int) == rest
        }),
{
    lemma_le_len();
    let s = serialize(m);
    let head = ser_head(m);
    let files = ser_files(m.files, m.files.len() as int);
    let rest = ser_mid(m) + ser_layers(m.layers, m.layers.len() as int) + ser_object_list(m)
        + ser_group_list(m) + ser_path_list(m);
    lemma_serialize(m);
    assert(s.subrange(0, s.len() as int) =~= s);
    lemma_parts5(s, 0, head, files, rest, Seq::empty(), Seq::empty());
    let p = (head.len() + files.len()) as int;
    assert(s.subrange(p, s.len() as int) =~= bytes_at(s, p, rest.len() as int));
}

/// A map whose fields agree with its version is read as it was written:
/// reading the bytes that `writeTo` writes gives the map back and ends at
/// their end.
pub proof fn lemma_roundtrip(m: RootView)
    requires
        consistent(m),
    ensures
        parse(serialize(m), 0) == Ok::<(RootView, int), Error>((m, serialize(m).len() as int)),
{
    lemma_le_len();
    let s = serialize(m);
    let head = ser_head(m);
    let files = ser_files(m.files, m.files.len() as int);
    lemma_split(m);
    lemma_head(s, 0, m);
    let h = parse_head(s, 0)->Ok_0;
    lemma_files(s, head.len() as int, m.files, m.files.len() as int);
    assert(m.files.subrange(0, m.files.len() as int) =~= m.files);
    lemma_rest(s, (head.len() + files.len()) as int, m, h);
}

/// The container is its head, the file names, and the rest.
pub proof fn lemma_serialize(m: RootView)
    ensures
        serialize(m) == ser_head(m) + ser_files(m.files, m.files.len() as int) + (ser_mid(m)
            + ser_layers(m.layers, m.layers.len() as int) + ser_object_list(m) + ser_group_list(m)
            + ser_path_list(m)) + Seq::<u8>::empty() + Seq::<u8>::empty(),
{
    lemma_le_len();
    lemma_regroup(
        ser_head(m),
        ser_files(m.files, m.files.len() as int),
        ser_mid(m),
        ser_layers(m.layers, m.layers.len() as int),
        ser_object_list(m),
        ser_group_list(m),
        ser_path_list(m),
    );
}

/// Seven parts in a row are the first two and then the other five.
pub proof fn lemma_regroup(
    a: Seq<u8>,
    b: Seq<u8>,
    c: Seq<u8>,
    d: Seq<u8>,
    e: Seq<u8>,
    f: Seq<u8>,
    g: Seq<u8>,
)
    ensures
        a + b + c + d + e + f + g == a + b + (c + d + e + f + g) + Seq::<u8>::empty() + Seq::<
            u8,
        >::empty(),
{
    assert(a + b + c + d + e + f + g =~= a + b + (c + d + e + f + g) + Seq::<u8>::empty() + Seq::<
        u8,
    >::empty());
}

} // verus!
