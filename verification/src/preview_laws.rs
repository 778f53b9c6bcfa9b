//! Laws of the previews: which meshes of a model are drawn, and what is drawn of each.

use vstd::prelude::*;

use crate::preview::{
    finest, hlod_position, is_visible, mesh_plan, mesh_position, meshes_of, names_mesh,
    part_meshes, parts_of, plain_meshes, short_part, texture_of, Hlod, Lod, MeshInfo, ModelInfo,
    PlannedView, SubObject,
};
use crate::text::lower;

verus! {

/// Law: a mesh is hidden by any of nine of its bits, and drawn without them.
pub proof fn hidden_bits_hide_meshes(attributes: u32, bit: u32)
    requires
        4 <= bit <= 12,
    ensures
        attributes & (1u32 << bit) != 0 ==> !is_visible(attributes),
        is_visible(0),
        is_visible(attributes) ==> is_visible(attributes & 0x1fffu32),
{
    assert(attributes & (1u32 << bit) != 0 ==> attributes & 0x1ff0 != 0) by (bit_vector)
        requires
            4 <= bit <= 12,
    ;
    assert(0u32 & 0x1ff0 == 0) by (bit_vector);
    assert(attributes & 0x1ff0 == 0 ==> (attributes & 0x1fff) & 0x1ff0 == 0) by (bit_vector);
}

/// Law: no other bit hides a mesh.
pub proof fn other_bits_hide_nothing(attributes: u32)
    requires
        forall|bit: u32| 4 <= bit <= 12 ==> attributes & #[trigger] (1u32 << bit) == 0,
    ensures
        is_visible(attributes),
{
    assert(attributes & (1u32 << 4u32) == 0);
    assert(attributes & (1u32 << 5u32) == 0);
    assert(attributes & (1u32 << 6u32) == 0);
    assert(attributes & (1u32 << 7u32) == 0);
    assert(attributes & (1u32 << 8u32) == 0);
    assert(attributes & (1u32 << 9u32) == 0);
    assert(attributes & (1u32 << 10u32) == 0);
    assert(attributes & (1u32 << 11u32) == 0);
    assert(attributes & (1u32 << 12u32) == 0);
    assert(attributes & 0x1ff0 == 0) by (bit_vector)
        requires
            attributes & (1u32 << 4u32) == 0,
            attributes & (1u32 << 5u32) == 0,
            attributes & (1u32 << 6u32) == 0,
            attributes & (1u32 << 7u32) == 0,
            attributes & (1u32 << 8u32) == 0,
            attributes & (1u32 << 9u32) == 0,
            attributes & (1u32 << 10u32) == 0,
            attributes & (1u32 << 11u32) == 0,
            attributes & (1u32 << 12u32) == 0,
    ;
}

/// A mesh goes by a name: its own, that of its container, both with a dot between, or
/// its own alone, where the name has a dot.
pub open spec fn goes_by(mesh: MeshInfo, name: Seq<char>) -> bool {
    ||| lower(mesh.name@) == lower(name)
    ||| lower(mesh.container@) == lower(name)
    ||| lower(mesh.container@ + "."@ + mesh.name@) == lower(name)
    ||| lower(mesh.name@) == lower(short_part(name))
}

/// The first mesh that goes by a name.
pub open spec fn is_mesh_of(meshes: Seq<MeshInfo>, name: Seq<char>, m: int) -> bool {
    &&& 0 <= m < meshes.len()
    &&& goes_by(meshes[m], name)
    &&& forall|k: int| 0 <= k < m ==> !goes_by(#[trigger] meshes[k], name)
}

proof fn lemma_mesh_position(meshes: Seq<MeshInfo>, name: Seq<char>, i: int, m: int)
    requires
        0 <= i <= m,
        is_mesh_of(meshes, name, m),
    ensures
        mesh_position(meshes, name, i) == m,
    decreases m - i,
{
    if i < m {
        assert(!goes_by(meshes[i], name));
        lemma_mesh_position(meshes, name, i + 1, m);
    }
}

proof fn lemma_part_drawn(
    meshes: Seq<MeshInfo>,
    parts: Seq<SubObject>,
    n: nat,
    p: int,
    m: int,
)
    requires
        0 <= p < n <= parts.len(),
        is_mesh_of(meshes, parts[p].name@, m),
        is_visible(meshes[m].attributes),
    ensures
        part_meshes(meshes, parts, n).contains((m, parts[p].bone as int)),
    decreases n,
{
    let all = part_meshes(meshes, parts, n);
    let before = part_meshes(meshes, parts, (n - 1) as nat);
    let pair = (m, parts[p].bone as int);
    if p < n - 1 {
        lemma_part_drawn(meshes, parts, (n - 1) as nat, p, m);
        let i = choose|i: int| 0 <= i < before.len() && before[i] == pair;
        assert(all[i] == pair);
    } else {
        lemma_mesh_position(meshes, parts[p].name@, 0, m);
        assert(all[before.len() as int] == pair);
    }
}

/// The first model of several parts of a name.
pub open spec fn is_hlod_of(hlods: Seq<Hlod>, name: Seq<char>, h: int) -> bool {
    &&& 0 <= h < hlods.len()
    &&& lower(hlods[h].name@) == lower(name)
    &&& forall|k: int| 0 <= k < h ==> lower((#[trigger] hlods[k]).name@) != lower(name)
}

proof fn lemma_hlod_position(hlods: Seq<Hlod>, name: Seq<char>, i: int, h: int)
    requires
        0 <= i <= h,
        is_hlod_of(hlods, name, h),
    ensures
        hlod_position(hlods, name, i) == h,
    decreases h - i,
{
    if i < h {
        assert(lower(hlods[i].name@) != lower(name));
        lemma_hlod_position(hlods, name, i + 1, h);
    }
}

/// A level of detail is the finest, and the last of those.
pub open spec fn is_finest(lods: Seq<Lod>, l: int) -> bool {
    &&& 0 <= l < lods.len()
    &&& forall|k: int| 0 <= k < l ==> (#[trigger] lods[k]).order <= lods[l].order
    &&& forall|k: int| l < k < lods.len() ==> (#[trigger] lods[k]).order < lods[l].order
}

proof fn lemma_finest(lods: Seq<Lod>, n: nat, l: int)
    requires
        0 <= l < n <= lods.len(),
        forall|k: int| 0 <= k < l ==> (#[trigger] lods[k]).order <= lods[l].order,
        forall|k: int| l < k < n ==> (#[trigger] lods[k]).order < lods[l].order,
    ensures
        finest(lods, n) == l,
    decreases n,
{
    if n > 1 {
        if l < n - 1 {
            lemma_finest(lods, (n - 1) as nat, l);
            assert(lods[n - 1].order < lods[l].order);
        } else {
            lemma_finest_bound(lods, (n - 1) as nat);
            let best = finest(lods, (n - 1) as nat);
            assert(lods[best].order <= lods[l].order);
        }
    }
}

proof fn lemma_finest_bound(lods: Seq<Lod>, n: nat)
    requires
        0 < n <= lods.len(),
    ensures
        0 <= finest(lods, n) < n,
    decreases n,
{
    if n > 1 {
        lemma_finest_bound(lods, (n - 1) as nat);
    }
}

/// Law: of a model of several parts, the parts that it always has are drawn and those
/// of its finest level: each by the first mesh of its name, at its bone, if that mesh
/// is not hidden.
pub proof fn parts_are_drawn(
    file: ModelInfo,
    model: Seq<char>,
    h: int,
    l: Option<int>,
    p: int,
    m: int,
)
    requires
        is_hlod_of(file.hlods@, model, h),
        match l {
            None => 0 <= p < file.hlods[h].aggregates@.len() && is_mesh_of(
                file.meshes@,
                file.hlods[h].aggregates[p].name@,
                m,
            ),
            Some(l) => is_finest(file.hlods[h].lods@, l) && 0 <= p
                < file.hlods[h].lods[l].subobjects@.len() && is_mesh_of(
                file.meshes@,
                file.hlods[h].lods[l].subobjects[p].name@,
                m,
            ),
        },
        is_visible(file.meshes[m].attributes),
    ensures
        meshes_of(file, model).contains(
            (
                m,
                match l {
                    None => file.hlods[h].aggregates[p].bone as int,
                    Some(l) => file.hlods[h].lods[l].subobjects[p].bone as int,
                },
            ),
        ),
{
    let hlod = file.hlods[h];
    let parts = parts_of(hlod);
    lemma_hlod_position(file.hlods@, model, 0, h);
    match l {
        None => {
            assert(parts[p] == hlod.aggregates@[p]);
            lemma_part_drawn(file.meshes@, parts, parts.len(), p, m);
        },
        Some(l) => {
            lemma_finest(hlod.lods@, hlod.lods@.len(), l);
            let at = hlod.aggregates@.len() + p;
            assert(parts[at] == hlod.lods[l].subobjects@[p]);
            lemma_part_drawn(file.meshes@, parts, parts.len(), at, m);
        },
    }
}

proof fn lemma_plain(meshes: Seq<MeshInfo>, name: Option<Seq<char>>, n: nat, m: int)
    requires
        n <= meshes.len(),
    ensures
        plain_meshes(meshes, name, n).contains((m, 0)) <==> 0 <= m < n && is_visible(
            meshes[m].attributes,
        ) && (name matches Some(name) ==> names_mesh(meshes[m], name)),
    decreases n,
{
    if n > 0 {
        let before = plain_meshes(meshes, name, (n - 1) as nat);
        let all = plain_meshes(meshes, name, n);
        lemma_plain(meshes, name, (n - 1) as nat, m);
        if before.contains((m, 0)) {
            let i = choose|i: int| 0 <= i < before.len() && before[i] == (m, 0int);
            assert(all[i] == (m, 0int));
        }
        if all.contains((m, 0)) && !before.contains((m, 0)) {
            let i = choose|i: int| 0 <= i < all.len() && all[i] == (m, 0int);
            if i < before.len() {
                assert(before[i] == (m, 0int));
            }
        }
        if m == n - 1 && is_visible(meshes[m].attributes) && (name matches Some(name) ==> names_mesh(
            meshes[m],
            name,
        )) {
            assert(all[before.len() as int] == (m, 0int));
        }
    }
}

/// Law: of a file without models of several parts, the meshes of the name are drawn
/// that are not hidden, or all that are not, if there is none of the name.
pub proof fn meshes_are_drawn(file: ModelInfo, model: Seq<char>, m: int)
    requires
        file.hlods@.len() == 0,
    ensures
        ({
            let shown = |k: int| 0 <= k < file.meshes@.len() && is_visible(file.meshes[k].attributes);
            let named = |k: int|
                shown(k) && (lower(file.meshes[k].name@) == lower(model) || lower(
                    file.meshes[k].container@,
                ) == lower(model) || lower(
                    file.meshes[k].container@ + "."@ + file.meshes[k].name@,
                ) == lower(model));
            meshes_of(file, model).contains((m, 0)) <==> if exists|k: int| #[trigger] named(k) {
                named(m)
            } else {
                shown(m)
            }
        }),
{
    let meshes = file.meshes@;
    let matching = plain_meshes(meshes, Some(model), meshes.len());
    let shown = |k: int| 0 <= k < file.meshes@.len() && is_visible(file.meshes[k].attributes);
    let named = |k: int|
        shown(k) && (lower(file.meshes[k].name@) == lower(model) || lower(
            file.meshes[k].container@,
        ) == lower(model) || lower(file.meshes[k].container@ + "."@ + file.meshes[k].name@)
            == lower(model));
    lemma_plain(meshes, Some(model), meshes.len(), m);
    lemma_plain(meshes, None, meshes.len(), m);
    if exists|k: int| #[trigger] named(k) {
        let k = choose|k: int| #[trigger] named(k);
        lemma_plain(meshes, Some(model), meshes.len(), k);
        assert(matching.contains((k, 0)));
        assert(matching.len() > 0);
    } else if matching.len() > 0 {
        lemma_plain_pairs(meshes, Some(model), meshes.len(), 0);
        let k = matching[0].0;
        assert(matching.contains(matching[0]));
        lemma_plain(meshes, Some(model), meshes.len(), k);
        assert(named(k));
    }
}

proof fn lemma_plain_pairs(meshes: Seq<MeshInfo>, name: Option<Seq<char>>, n: nat, i: int)
    requires
        n <= meshes.len(),
        0 <= i < plain_meshes(meshes, name, n).len(),
    ensures
        plain_meshes(meshes, name, n)[i].1 == 0,
    decreases n,
{
    if n > 0 && i < plain_meshes(meshes, name, (n - 1) as nat).len() {
        lemma_plain_pairs(meshes, name, (n - 1) as nat, i);
    }
}

/// A triangle is drawn as it is in its mesh: with its three vertices, with its texture,
/// and from both sides if its mesh is.
pub open spec fn draws(plan: PlannedView, mesh: MeshInfo, at: int, bone: int, i: int) -> bool {
    let triangle = mesh.triangles[i];
    &&& plan.mesh == at
    &&& plan.corners.len() == 3
    &&& draws_corner(plan.corners[0], mesh, bone, i * 3, triangle.0 as int)
    &&& draws_corner(plan.corners[1], mesh, bone, i * 3 + 1, triangle.1 as int)
    &&& draws_corner(plan.corners[2], mesh, bone, i * 3 + 2, triangle.2 as int)
    &&& plan.two_sided == (mesh.attributes & 0x2000 != 0)
    &&& plan.texture == texture_of(mesh, i)
}

/// A corner is a vertex, with the place in the texture that is its own or else that of
/// the vertex, and at the bone of the vertex or else that of the part.
pub open spec fn draws_corner(
    corner: (int, int, int),
    mesh: MeshInfo,
    bone: int,
    k: int,
    vertex: int,
) -> bool {
    let (v, uv, b) = corner;
    &&& v == vertex
    &&& k < mesh.face_uv_ids@.len() ==> uv == mesh.face_uv_ids[k]
    &&& k >= mesh.face_uv_ids@.len() ==> uv == vertex
    &&& vertex < mesh.influences@.len() ==> b == mesh.influences[vertex]
    &&& vertex >= mesh.influences@.len() ==> b == bone
}

/// Law: every triangle of a mesh whose vertices there are is drawn, and no other.
pub proof fn whole_triangles_are_drawn(mesh: MeshInfo, at: int, bone: int, n: nat)
    requires
        n <= mesh.triangles@.len(),
    ensures
        forall|i: int|
            0 <= i < n && (#[trigger] mesh.triangles[i]).0 < mesh.vertices && mesh.triangles[i].1
                < mesh.vertices && mesh.triangles[i].2 < mesh.vertices ==> exists|d: int|
                0 <= d < mesh_plan(mesh, at, bone, n).len() && #[trigger] draws(
                    mesh_plan(mesh, at, bone, n)[d],
                    mesh,
                    at,
                    bone,
                    i,
                ),
        mesh_plan(mesh, at, bone, n).len() <= n,
        (forall|i: int|
            0 <= i < n ==> (#[trigger] mesh.triangles[i]).0 >= mesh.vertices
                || mesh.triangles[i].1 >= mesh.vertices || mesh.triangles[i].2 >= mesh.vertices)
            ==> mesh_plan(mesh, at, bone, n).len() == 0,
    decreases n,
{
    if n > 0 {
        let all = mesh_plan(mesh, at, bone, n);
        let before = mesh_plan(mesh, at, bone, (n - 1) as nat);
        whole_triangles_are_drawn(mesh, at, bone, (n - 1) as nat);
        assert forall|i: int|
            0 <= i < n && (#[trigger] mesh.triangles[i]).0 < mesh.vertices && mesh.triangles[i].1
                < mesh.vertices && mesh.triangles[i].2 < mesh.vertices implies exists|d: int|
            0 <= d < all.len() && #[trigger] draws(all[d], mesh, at, bone, i) by {
            if i < n - 1 {
                let d = choose|d: int|
                    0 <= d < before.len() && #[trigger] draws(before[d], mesh, at, bone, i);
                assert(all[d] == before[d]);
                assert(draws(all[d], mesh, at, bone, i));
            } else {
                assert(draws(all[before.len() as int], mesh, at, bone, i));
            }
        }
        if forall|i: int|
            0 <= i < n ==> (#[trigger] mesh.triangles[i]).0 >= mesh.vertices
                || mesh.triangles[i].1 >= mesh.vertices || mesh.triangles[i].2 >= mesh.vertices {
            assert(mesh.triangles[n - 1].0 >= mesh.vertices || mesh.triangles[n - 1].1
                >= mesh.vertices || mesh.triangles[n - 1].2 >= mesh.vertices);
        }
    }
}

/// Law: a texture goes for a whole mesh if there is one number, else by triangle; a
/// triangle without a number has the first texture.
pub proof fn textures_go_by_triangle(mesh: MeshInfo, i: int, t: int)
    requires
        0 <= i,
        0 <= t < mesh.textures@.len(),
    ensures
        mesh.texture_ids@.len() == 1 && mesh.texture_ids[0] == t ==> texture_of(mesh, i)
            == mesh.textures[t]@,
        mesh.texture_ids@.len() > 1 && i < mesh.texture_ids@.len() && mesh.texture_ids[i] == t
            ==> texture_of(mesh, i) == mesh.textures[t]@,
        mesh.texture_ids@.len() == 0 ==> texture_of(mesh, i) == mesh.textures[0]@,
{
}

} // verus!
