//! What a model preview shows, and how much work it may take.
//!
//! The choices here are made on names and counts; the geometry is drawn by the
//! caller.

use vstd::prelude::*;
use vstd::string::*;

use crate::facts::{item_views, lists_name};
use crate::names::{rsplit_once, split_last};
use crate::sorting::{
    indices, key_views, reordered, sort_indices, sorted_order, KeyView, SortKey,
};
use crate::text::{cat3, lower, same_ignoring_case};

verus! {

/// The width of a preview, in pixels.
pub const WIDTH: u32 = 160;

/// The height of a preview, in pixels.
pub const HEIGHT: u32 = 120;

/// The most triangles a preview draws.
pub const MAX_RENDER_TRIANGLES: usize = 10_000;

/// The most textures a preview loads.
pub const MAX_RENDER_TEXTURES: usize = 32;

/// The most texture pixels a preview holds.
pub const MAX_RENDER_TEXTURE_PIXELS: u64 = 16_777_216;

/// The most samples a preview takes: each pixel this many times over.
pub const MAX_RASTER_SAMPLES: u64 = 614_400;

/// The widest and highest texture.
pub const MAX_TEXTURE_SIDE: u32 = 4096;

/// The most bytes a decoded texture takes.
pub const MAX_TEXTURE_BYTES: u64 = 67_108_864;

/// A preview: the image, and the textures that could not be loaded.
#[derive(Debug)]
pub struct RenderedThumbnail {
    pub png: Vec<u8>,
    pub missing_textures: Vec<String>,
}

/// Why there is no preview.
#[derive(Debug, Clone, Copy, PartialEq, Eq, Structural)]
pub enum PreviewError {
    Triangles,
    NothingVisible,
    TextureCount,
    TextureMemory,
    RasterWork,
    Encoding,
}

impl PreviewError {
    /// What the error says.
    pub open spec fn text(self) -> Seq<char> {
        match self {
            PreviewError::Triangles => "model triangle budget exceeded"@,
            PreviewError::NothingVisible => "model has no visible triangles"@,
            PreviewError::TextureCount => "model texture count budget exceeded"@,
            PreviewError::TextureMemory => "model texture memory budget exceeded"@,
            PreviewError::RasterWork => "model raster work budget exceeded"@,
            PreviewError::Encoding => "could not encode preview"@,
        }
    }

    /// What the error says.
    pub fn message(self) -> (out: String)
        ensures
            out@ == self.text(),
    {
        match self {
            PreviewError::Triangles => "model triangle budget exceeded".to_string(),
            PreviewError::NothingVisible => "model has no visible triangles".to_string(),
            PreviewError::TextureCount => "model texture count budget exceeded".to_string(),
            PreviewError::TextureMemory => "model texture memory budget exceeded".to_string(),
            PreviewError::RasterWork => "model raster work budget exceeded".to_string(),
            PreviewError::Encoding => "could not encode preview".to_string(),
        }
    }
}

// ---------------------------------------------------------------------------
// Models
// ---------------------------------------------------------------------------
/// A mesh: its names, its attribute bits, and what its triangles index.
#[derive(Debug)]
pub struct MeshInfo {
    pub name: String,
    pub container: String,
    pub attributes: u32,
    /// The vertices of each triangle.
    pub triangles: Vec<(u32, u32, u32)>,
    /// How many vertices there are.
    pub vertices: usize,
    pub textures: Vec<String>,
    /// The texture of each triangle, or of all of them.
    pub texture_ids: Vec<u32>,
    /// The texture coordinate of each corner, where corners have their own.
    pub face_uv_ids: Vec<u32>,
    /// The bone of each vertex, where vertices have their own.
    pub influences: Vec<u16>,
}

/// A part of a model: a mesh by name, and the bone it hangs on.
#[derive(Debug)]
pub struct SubObject {
    pub name: String,
    pub bone: usize,
}

/// A level of detail. `order` orders levels by the screen size they are for.
#[derive(Debug)]
pub struct Lod {
    pub order: i32,
    pub subobjects: Vec<SubObject>,
}

/// A model of several levels of detail.
#[derive(Debug)]
pub struct Hlod {
    pub name: String,
    pub hierarchy: String,
    pub aggregates: Vec<SubObject>,
    pub lods: Vec<Lod>,
}

/// What a model file holds.
#[derive(Debug)]
pub struct ModelInfo {
    pub hierarchies: Vec<String>,
    pub hlods: Vec<Hlod>,
    pub meshes: Vec<MeshInfo>,
}

/// Whether a mesh is drawn: none of the hidden and collision bits is set.
pub open spec fn is_visible(attributes: u32) -> bool {
    attributes & 0x1ff0 == 0
}

/// Whether a mesh is drawn.
pub fn visible(attributes: u32) -> (yes: bool)
    ensures
        yes == is_visible(attributes),
{
    attributes & 0x1ff0 == 0
}

/// Whether a mesh is drawn from both sides.
pub open spec fn is_two_sided(attributes: u32) -> bool {
    attributes & 0x2000 != 0
}

/// Whether a mesh is drawn from both sides.
pub fn two_sided(attributes: u32) -> (yes: bool)
    ensures
        yes == is_two_sided(attributes),
{
    attributes & 0x2000 != 0
}

/// Whether a name, in whatever case, is that of a mesh: its own, that of its
/// container, or both with a dot between them.
pub open spec fn names_mesh(mesh: MeshInfo, name: Seq<char>) -> bool {
    same_ignoring_case(mesh.name@, name) || same_ignoring_case(mesh.container@, name)
        || same_ignoring_case(mesh.container@ + "."@ + mesh.name@, name)
}

/// Whether a name is that of a mesh.
pub fn mesh_matches(mesh: &MeshInfo, name: &str) -> (yes: bool)
    ensures
        yes == names_mesh(*mesh, name@),
{
    mesh.name.as_str().eq_ignore_ascii_case(name) || mesh.container.as_str().eq_ignore_ascii_case(
        name,
    ) || cat3(&mesh.container, ".", &mesh.name).as_str().eq_ignore_ascii_case(name)
}

/// The last part of a dotted name.
pub open spec fn short_part(name: Seq<char>) -> Seq<char> {
    match split_last(name, '.') {
        Some((_, short)) => short,
        None => name,
    }
}

/// The first mesh from `i` on that a part's name means: by any of its names, or
/// its own name as the last part of the part's name.
pub open spec fn mesh_position(meshes: Seq<MeshInfo>, name: Seq<char>, i: int) -> int
    decreases meshes.len() - i,
{
    if i < 0 || i >= meshes.len() || names_mesh(meshes[i], name) || same_ignoring_case(
        meshes[i].name@,
        short_part(name),
    ) {
        i
    } else {
        mesh_position(meshes, name, i + 1)
    }
}

/// The mesh that a part's name means.
pub fn find_mesh(meshes: &Vec<MeshInfo>, name: &str) -> (out: Option<usize>)
    ensures
        match out {
            Some(at) => at < meshes.len() && at == mesh_position(meshes@, name@, 0),
            None => mesh_position(meshes@, name@, 0) == meshes.len(),
        },
{
    let short = match rsplit_once(name, '.') {
        Some((_, short)) => short,
        None => name.to_string(),
    };
    let mut i: usize = 0;
    while i < meshes.len()
        invariant
            i <= meshes.len(),
            short@ == short_part(name@),
            mesh_position(meshes@, name@, 0) == mesh_position(meshes@, name@, i as int),
        decreases meshes.len() - i,
    {
        if mesh_matches(&meshes[i], name) || meshes[i].name.as_str().eq_ignore_ascii_case(&short) {
            return Some(i);
        }
        i += 1;
    }
    None
}

/// The first model of a name, in whatever case, from `i` on.
pub open spec fn hlod_position(hlods: Seq<Hlod>, name: Seq<char>, i: int) -> int
    decreases hlods.len() - i,
{
    if i < 0 || i >= hlods.len() || same_ignoring_case(hlods[i].name@, name) {
        i
    } else {
        hlod_position(hlods, name, i + 1)
    }
}

fn find_hlod(hlods: &Vec<Hlod>, name: &str) -> (out: Option<usize>)
    ensures
        match out {
            Some(at) => at < hlods.len() && at == hlod_position(hlods@, name@, 0),
            None => hlod_position(hlods@, name@, 0) == hlods.len(),
        },
{
    let mut i: usize = 0;
    while i < hlods.len()
        invariant
            i <= hlods.len(),
            hlod_position(hlods@, name@, 0) == hlod_position(hlods@, name@, i as int),
        decreases hlods.len() - i,
    {
        if hlods[i].name.as_str().eq_ignore_ascii_case(name) {
            return Some(i);
        }
        i += 1;
    }
    None
}

/// The first hierarchy of a name, in whatever case, from `i` on.
pub open spec fn name_position(names: Seq<String>, name: Seq<char>, i: int) -> int
    decreases names.len() - i,
{
    if i < 0 || i >= names.len() || same_ignoring_case(names[i]@, name) {
        i
    } else {
        name_position(names, name, i + 1)
    }
}

fn find_name(names: &Vec<String>, name: &str) -> (out: Option<usize>)
    ensures
        match out {
            Some(at) => at < names.len() && at == name_position(names@, name@, 0),
            None => name_position(names@, name@, 0) == names.len(),
        },
{
    let mut i: usize = 0;
    while i < names.len()
        invariant
            i <= names.len(),
            name_position(names@, name@, 0) == name_position(names@, name@, i as int),
        decreases names.len() - i,
    {
        if names[i].as_str().eq_ignore_ascii_case(name) {
            return Some(i);
        }
        i += 1;
    }
    None
}

/// The hierarchy that a preview poses: that of the requested model, or of the
/// first model; failing that the first hierarchy.
pub open spec fn hierarchy_of(file: ModelInfo, model: Seq<char>) -> Option<int> {
    let at = hlod_position(file.hlods@, model, 0);
    let chosen = if at < file.hlods.len() {
        at
    } else {
        0
    };
    let wanted = if file.hlods.len() > 0 {
        name_position(file.hierarchies@, file.hlods[chosen].hierarchy@, 0)
    } else {
        file.hierarchies.len() as int
    };
    if wanted < file.hierarchies.len() {
        Some(wanted)
    } else if file.hierarchies.len() > 0 {
        Some(0)
    } else {
        None
    }
}

/// The hierarchy that a preview poses.
pub fn selected_hierarchy(file: &ModelInfo, model: &str) -> (out: Option<usize>)
    ensures
        match out {
            Some(at) => hierarchy_of(*file, model@) == Some(at as int) && at
                < file.hierarchies.len(),
            None => hierarchy_of(*file, model@) is None,
        },
{
    if file.hlods.len() > 0 {
        let chosen: usize = match find_hlod(&file.hlods, model) {
            Some(at) => at,
            None => 0,
        };
        if let Some(at) = find_name(&file.hierarchies, &file.hlods[chosen].hierarchy) {
            return Some(at);
        }
    }
    if file.hierarchies.len() > 0 {
        Some(0)
    } else {
        None
    }
}

/// The level of detail for the largest screen size among the first `n`, the last
/// of several.
pub open spec fn finest(lods: Seq<Lod>, n: nat) -> int
    decreases n,
{
    if n <= 1 {
        0
    } else {
        let best = finest(lods, (n - 1) as nat);
        if lods[n - 1].order >= lods[best].order {
            n - 1
        } else {
            best
        }
    }
}

/// The parts of a model that are drawn: what is always there, then those of the
/// finest level of detail.
pub open spec fn parts_of(hlod: Hlod) -> Seq<SubObject> {
    if hlod.lods.len() == 0 {
        hlod.aggregates@
    } else {
        hlod.aggregates@ + hlod.lods[finest(hlod.lods@, hlod.lods@.len())].subobjects@
    }
}

/// The visible meshes of the first `n` parts, each with its part's bone.
pub open spec fn part_meshes(meshes: Seq<MeshInfo>, parts: Seq<SubObject>, n: nat) -> Seq<(int, int)>
    decreases n,
{
    if n == 0 {
        Seq::empty()
    } else {
        let rest = part_meshes(meshes, parts, (n - 1) as nat);
        let at = mesh_position(meshes, parts[n - 1].name@, 0);
        if at < meshes.len() && is_visible(meshes[at].attributes) {
            rest.push((at, parts[n - 1].bone as int))
        } else {
            rest
        }
    }
}

/// The visible meshes of a model, each with the bone it hangs on.
pub open spec fn hlod_meshes(file: ModelInfo, hlod: Hlod) -> Seq<(int, int)> {
    part_meshes(file.meshes@, parts_of(hlod), parts_of(hlod).len())
}

pub open spec fn pairs(s: Seq<(usize, usize)>) -> Seq<(int, int)> {
    Seq::new(s.len(), |i: int| (s[i].0 as int, s[i].1 as int))
}

fn push_part(meshes: &Vec<MeshInfo>, part: &SubObject, out: &mut Vec<(usize, usize)>)
    ensures
        ({
            let at = mesh_position(meshes@, part.name@, 0);
            pairs(final(out)@) == if at < meshes.len() && is_visible(meshes[at].attributes) {
                pairs(old(out)@).push((at, part.bone as int))
            } else {
                pairs(old(out)@)
            }
        }),
{
    let ghost before = pairs(out@);
    if let Some(at) = find_mesh(meshes, &part.name) {
        if visible(meshes[at].attributes) {
            out.push((at, part.bone));
            assert(pairs(out@) =~= before.push((at as int, part.bone as int)));
        }
    }
}

fn finest_lod(lods: &Vec<Lod>) -> (out: usize)
    requires
        lods.len() > 0,
    ensures
        out == finest(lods@, lods@.len()),
        out < lods.len(),
{
    let mut best: usize = 0;
    let mut i: usize = 1;
    while i < lods.len()
        invariant
            1 <= i <= lods.len(),
            best < lods.len(),
            best == finest(lods@, i as nat),
        decreases lods.len() - i,
    {
        if lods[i].order >= lods[best].order {
            best = i;
        }
        i += 1;
    }
    best
}

/// The visible meshes of a model, each with the bone it hangs on.
pub fn meshes_for_hlod(file: &ModelInfo, hlod: &Hlod) -> (out: Vec<(usize, usize)>)
    ensures
        pairs(out@) == hlod_meshes(*file, *hlod),
{
    let ghost parts = parts_of(*hlod);
    let mut out: Vec<(usize, usize)> = Vec::new();
    let mut i: usize = 0;
    assert(pairs(out@) =~= Seq::<(int, int)>::empty());
    while i < hlod.aggregates.len()
        invariant
            i <= hlod.aggregates.len(),
            parts == parts_of(*hlod),
            pairs(out@) == part_meshes(file.meshes@, parts, i as nat),
        decreases hlod.aggregates.len() - i,
    {
        assert(parts[i as int] == hlod.aggregates@[i as int]);
        push_part(&file.meshes, &hlod.aggregates[i], &mut out);
        i += 1;
    }
    if hlod.lods.len() > 0 {
        let lod = &hlod.lods[finest_lod(&hlod.lods)];
        let ghost first = hlod.aggregates@.len();
        let mut j: usize = 0;
        while j < lod.subobjects.len()
            invariant
                j <= lod.subobjects.len(),
                first == hlod.aggregates@.len(),
                parts == hlod.aggregates@ + lod.subobjects@,
                pairs(out@) == part_meshes(file.meshes@, parts, first + j as nat),
            decreases lod.subobjects.len() - j,
        {
            assert(parts[first + j] == lod.subobjects@[j as int]);
            push_part(&file.meshes, &lod.subobjects[j], &mut out);
            assert((first + (j + 1) as nat - 1) as nat == first + j as nat);
            j += 1;
        }
    }
    out
}

/// The visible meshes among the first `n`, all or only those of a name.
pub open spec fn plain_meshes(meshes: Seq<MeshInfo>, name: Option<Seq<char>>, n: nat) -> Seq<
    (int, int),
>
    decreases n,
{
    if n == 0 {
        Seq::empty()
    } else {
        let rest = plain_meshes(meshes, name, (n - 1) as nat);
        if is_visible(meshes[n - 1].attributes) && (name matches Some(name) ==> names_mesh(
            meshes[n - 1],
            name,
        )) {
            rest.push((n - 1, 0))
        } else {
            rest
        }
    }
}

fn collect_meshes(meshes: &Vec<MeshInfo>, name: Option<&str>) -> (out: Vec<(usize, usize)>)
    ensures
        pairs(out@) == plain_meshes(meshes@, crate::parser::opt_text(name), meshes@.len()),
{
    let mut out: Vec<(usize, usize)> = Vec::new();
    let mut i: usize = 0;
    assert(pairs(out@) =~= Seq::<(int, int)>::empty());
    while i < meshes.len()
        invariant
            i <= meshes.len(),
            pairs(out@) == plain_meshes(meshes@, crate::parser::opt_text(name), i as nat),
        decreases meshes.len() - i,
    {
        let ghost before = pairs(out@);
        let wanted = match name {
            Some(name) => mesh_matches(&meshes[i], name),
            None => true,
        };
        if visible(meshes[i].attributes) && wanted {
            out.push((i, 0));
            assert(pairs(out@) =~= before.push((i as int, 0)));
        }
        i += 1;
    }
    out
}

/// The meshes that a preview of `model` draws: those of the model of that name,
/// else meshes of that name, else those of the first model, else all that are
/// visible.
pub open spec fn meshes_of(file: ModelInfo, model: Seq<char>) -> Seq<(int, int)> {
    let at = hlod_position(file.hlods@, model, 0);
    let named = if at < file.hlods.len() {
        hlod_meshes(file, file.hlods[at])
    } else {
        Seq::empty()
    };
    let matching = plain_meshes(file.meshes@, Some(model), file.meshes@.len());
    let first = if file.hlods.len() > 0 {
        hlod_meshes(file, file.hlods[0])
    } else {
        Seq::empty()
    };
    if named.len() > 0 {
        named
    } else if matching.len() > 0 {
        matching
    } else if first.len() > 0 {
        first
    } else {
        plain_meshes(file.meshes@, None, file.meshes@.len())
    }
}

/// The meshes that a preview of `model` draws, each with the bone it hangs on.
pub fn selected_meshes(file: &ModelInfo, model: &str) -> (out: Vec<(usize, usize)>)
    ensures
        pairs(out@) == meshes_of(*file, model@),
{
    if let Some(at) = find_hlod(&file.hlods, model) {
        let named = meshes_for_hlod(file, &file.hlods[at]);
        if named.len() > 0 {
            assert(pairs(named@).len() > 0);
            return named;
        }
        assert(pairs(named@).len() == 0);
    }
    let matching = collect_meshes(&file.meshes, Some(model));
    assert(pairs(matching@).len() == matching@.len());
    if matching.len() > 0 {
        return matching;
    }
    if file.hlods.len() > 0 {
        let first = meshes_for_hlod(file, &file.hlods[0]);
        assert(pairs(first@).len() == first@.len());
        if first.len() > 0 {
            return first;
        }
    }
    collect_meshes(&file.meshes, None)
}

// ---------------------------------------------------------------------------
// Triangles
// ---------------------------------------------------------------------------
/// How many triangles the first `n` selected meshes have.
pub open spec fn triangle_sum(meshes: Seq<MeshInfo>, selected: Seq<(int, int)>, n: nat) -> nat
    decreases n,
{
    if n == 0 {
        0
    } else {
        triangle_sum(meshes, selected, (n - 1) as nat) + meshes[selected[n - 1].0].triangles@.len()
    }
}

proof fn lemma_sum_monotone(meshes: Seq<MeshInfo>, selected: Seq<(int, int)>, n: nat, m: nat)
    requires
        n <= m,
    ensures
        triangle_sum(meshes, selected, n) <= triangle_sum(meshes, selected, m),
    decreases m - n,
{
    if n < m {
        lemma_sum_monotone(meshes, selected, n, (m - 1) as nat);
    }
}

/// The number of triangles of a preview, if it is within the budget.
pub fn triangle_budget(meshes: &Vec<MeshInfo>, selected: &Vec<(usize, usize)>) -> (out: Result<
    usize,
    PreviewError,
>)
    requires
        forall|i: int| 0 <= i < selected.len() ==> (#[trigger] selected[i]).0 < meshes.len(),
    ensures
        ({
            let total = triangle_sum(meshes@, pairs(selected@), selected@.len());
            match out {
                Ok(count) => count == total && total <= MAX_RENDER_TRIANGLES,
                Err(error) => error == PreviewError::Triangles && total > MAX_RENDER_TRIANGLES,
            }
        }),
{
    let ghost all = pairs(selected@);
    let mut total: usize = 0;
    let mut i: usize = 0;
    while i < selected.len()
        invariant
            i <= selected.len(),
            all == pairs(selected@),
            forall|i: int| 0 <= i < selected.len() ==> (#[trigger] selected[i]).0 < meshes.len(),
            total == triangle_sum(meshes@, all, i as nat),
            total <= MAX_RENDER_TRIANGLES,
        decreases selected.len() - i,
    {
        let count = meshes[selected[i].0].triangles.len();
        proof {
            assert(all[i as int].0 == selected@[i as int].0);
            lemma_sum_monotone(meshes@, all, (i + 1) as nat, selected@.len());
        }
        if count > MAX_RENDER_TRIANGLES - total {
            return Err(PreviewError::Triangles);
        }
        total = total + count;
        i += 1;
    }
    Ok(total)
}

/// A corner of a triangle: its vertex, its texture coordinate and its bone.
#[derive(Debug, Clone, Copy, PartialEq, Eq, Structural)]
pub struct Corner {
    pub vertex: usize,
    pub uv: usize,
    pub bone: usize,
}

/// A triangle to draw, and the mesh it belongs to.
#[derive(Debug)]
pub struct PlannedTriangle {
    pub mesh: usize,
    pub corners: [Corner; 3],
    pub texture: String,
    pub two_sided: bool,
}

#[verifier::ext_equal]
pub struct PlannedView {
    pub mesh: int,
    pub corners: Seq<(int, int, int)>,
    pub texture: Seq<char>,
    pub two_sided: bool,
}

impl Corner {
    pub open spec fn parts(self) -> (int, int, int) {
        (self.vertex as int, self.uv as int, self.bone as int)
    }
}

impl View for PlannedTriangle {
    type V = PlannedView;

    open spec fn view(&self) -> PlannedView {
        PlannedView {
            mesh: self.mesh as int,
            corners: Seq::new(3, |corner: int| self.corners[corner].parts()),
            texture: self.texture@,
            two_sided: self.two_sided,
        }
    }
}

/// The vertex of a corner.
pub open spec fn corner_vertex(triangle: (u32, u32, u32), corner: int) -> int {
    if corner == 0 {
        triangle.0 as int
    } else if corner == 1 {
        triangle.1 as int
    } else {
        triangle.2 as int
    }
}

/// A corner of triangle `i`: the texture coordinate is the corner's own or the
/// vertex's; the bone is the vertex's own or the mesh's.
pub open spec fn corner_of(mesh: MeshInfo, bone: int, i: int, corner: int) -> (int, int, int) {
    let vertex = corner_vertex(mesh.triangles[i], corner);
    (
        vertex,
        if i * 3 + corner < mesh.face_uv_ids.len() {
            mesh.face_uv_ids[i * 3 + corner] as int
        } else {
            vertex
        },
        if vertex < mesh.influences.len() {
            mesh.influences[vertex] as int
        } else {
            bone
        },
    )
}

/// The texture of triangle `i`: one for all triangles, its own, or the first.
pub open spec fn texture_of(mesh: MeshInfo, i: int) -> Seq<char> {
    let id = if mesh.texture_ids.len() == 1 {
        mesh.texture_ids[0] as int
    } else if i < mesh.texture_ids.len() {
        mesh.texture_ids[i] as int
    } else {
        0
    };
    if id < mesh.textures.len() {
        mesh.textures[id]@
    } else {
        Seq::empty()
    }
}

/// Whether all corners of triangle `i` have a vertex.
pub open spec fn is_whole(mesh: MeshInfo, i: int) -> bool {
    mesh.triangles[i].0 < mesh.vertices && mesh.triangles[i].1 < mesh.vertices
        && mesh.triangles[i].2 < mesh.vertices
}

fn plan_corner(mesh: &MeshInfo, bone: usize, i: usize, corner: usize, vertex: u32) -> (out: Corner)
    requires
        i < mesh.triangles.len(),
        corner < 3,
        vertex == corner_vertex(mesh.triangles[i as int], corner as int),
    ensures
        out.parts() == corner_of(*mesh, bone as int, i as int, corner as int),
{
    let vertex = vertex as usize;
    let uvs = mesh.face_uv_ids.len();
    let uv: usize = if i <= uvs / 3 && corner < uvs - i * 3 {
        mesh.face_uv_ids[i * 3 + corner] as usize
    } else {
        vertex
    };
    let bone: usize = if vertex < mesh.influences.len() {
        mesh.influences[vertex] as usize
    } else {
        bone
    };
    Corner { vertex, uv, bone }
}

/// How triangle `i` of mesh `at` is drawn.
pub open spec fn triangle_plan(mesh: MeshInfo, at: int, bone: int, i: int) -> PlannedView {
    PlannedView {
        mesh: at,
        corners: Seq::new(3, |corner: int| corner_of(mesh, bone, i, corner)),
        texture: texture_of(mesh, i),
        two_sided: is_two_sided(mesh.attributes),
    }
}

/// How to draw triangle `i` of mesh `at`; not at all if it lacks a vertex.
pub fn plan_triangle(mesh: &MeshInfo, at: usize, bone: usize, i: usize) -> (out: Option<
    PlannedTriangle,
>)
    requires
        i < mesh.triangles.len(),
    ensures
        match out {
            None => !is_whole(*mesh, i as int),
            Some(triangle) => is_whole(*mesh, i as int) && triangle@ == triangle_plan(
                *mesh,
                at as int,
                bone as int,
                i as int,
            ),
        },
{
    let (a, b, c) = mesh.triangles[i];
    if a as usize >= mesh.vertices || b as usize >= mesh.vertices || c as usize >= mesh.vertices {
        return None;
    }
    let id: usize = if mesh.texture_ids.len() == 1 {
        mesh.texture_ids[0] as usize
    } else if i < mesh.texture_ids.len() {
        mesh.texture_ids[i] as usize
    } else {
        0
    };
    let texture = if id < mesh.textures.len() {
        mesh.textures[id].clone()
    } else {
        let none = String::new();
        assert(none@ =~= Seq::<char>::empty());
        none
    };
    let first = plan_corner(mesh, bone, i, 0, a);
    let second = plan_corner(mesh, bone, i, 1, b);
    let third = plan_corner(mesh, bone, i, 2, c);
    let triangle = PlannedTriangle {
        mesh: at,
        corners: [first, second, third],
        texture,
        two_sided: two_sided(mesh.attributes),
    };
    assert(triangle@.corners =~= triangle_plan(*mesh, at as int, bone as int, i as int).corners);
    Some(triangle)
}

/// How the first `n` triangles of mesh `at` are drawn: those that lack a vertex
/// are not.
pub open spec fn mesh_plan(mesh: MeshInfo, at: int, bone: int, n: nat) -> Seq<PlannedView>
    decreases n,
{
    if n == 0 {
        Seq::empty()
    } else {
        let rest = mesh_plan(mesh, at, bone, (n - 1) as nat);
        if is_whole(mesh, n - 1) {
            rest.push(triangle_plan(mesh, at, bone, n - 1))
        } else {
            rest
        }
    }
}

/// How the triangles of the first `n` selected meshes are drawn.
pub open spec fn triangles_plan(meshes: Seq<MeshInfo>, selected: Seq<(int, int)>, n: nat) -> Seq<
    PlannedView,
>
    decreases n,
{
    if n == 0 {
        Seq::empty()
    } else {
        let (at, bone) = selected[n - 1];
        triangles_plan(meshes, selected, (n - 1) as nat) + mesh_plan(
            meshes[at],
            at,
            bone,
            meshes[at].triangles@.len(),
        )
    }
}

fn append_mesh_triangles(
    mesh: &MeshInfo,
    at: usize,
    bone: usize,
    out: &mut Vec<PlannedTriangle>,
)
    ensures
        item_views(final(out)@) == item_views(old(out)@) + mesh_plan(
            *mesh,
            at as int,
            bone as int,
            mesh.triangles@.len(),
        ),
{
    let ghost before = item_views(out@);
    let mut i: usize = 0;
    assert(before + mesh_plan(*mesh, at as int, bone as int, 0) =~= before);
    while i < mesh.triangles.len()
        invariant
            i <= mesh.triangles.len(),
            item_views(out@) == before + mesh_plan(*mesh, at as int, bone as int, i as nat),
        decreases mesh.triangles.len() - i,
    {
        let ghost drawn = item_views(out@);
        if let Some(triangle) = plan_triangle(mesh, at, bone, i) {
            let ghost view = triangle@;
            out.push(triangle);
            assert(item_views(out@) =~= drawn.push(view));
        }
        assert(item_views(out@) =~= before + mesh_plan(
            *mesh,
            at as int,
            bone as int,
            (i + 1) as nat,
        ));
        i += 1;
    }
}

/// The triangles that a preview of `model` draws, in order: those of the selected
/// meshes, if they are within the budget and there are any.
pub fn plan_preview(file: &ModelInfo, model: &str) -> (out: Result<
    Vec<PlannedTriangle>,
    PreviewError,
>)
    ensures
        ({
            let selected = meshes_of(*file, model@);
            let total = triangle_sum(file.meshes@, selected, selected.len());
            let plan = triangles_plan(file.meshes@, selected, selected.len());
            match out {
                Ok(triangles) => total <= MAX_RENDER_TRIANGLES && plan.len() > 0 && item_views(
                    triangles@,
                ) == plan,
                Err(PreviewError::Triangles) => total > MAX_RENDER_TRIANGLES,
                Err(PreviewError::NothingVisible) => total <= MAX_RENDER_TRIANGLES && plan.len()
                    == 0,
                Err(_) => false,
            }
        }),
{
    let selected = selected_meshes(file, model);
    let ghost all = meshes_of(*file, model@);
    assert forall|i: int| 0 <= i < selected.len() implies (#[trigger] selected[i]).0
        < file.meshes.len() by {
        previews_draw_visible_meshes(*file, model@, i);
        assert(all[i] == (selected@[i].0 as int, selected@[i].1 as int));
    }
    if triangle_budget(&file.meshes, &selected).is_err() {
        return Err(PreviewError::Triangles);
    }
    let mut out: Vec<PlannedTriangle> = Vec::new();
    let mut i: usize = 0;
    assert(item_views(out@) =~= Seq::<PlannedView>::empty());
    while i < selected.len()
        invariant
            i <= selected.len(),
            all == pairs(selected@),
            forall|i: int|
                0 <= i < selected.len() ==> (#[trigger] selected[i]).0 < file.meshes.len(),
            item_views(out@) == triangles_plan(file.meshes@, all, i as nat),
        decreases selected.len() - i,
    {
        let (at, bone) = selected[i];
        assert(all[i as int] == (at as int, bone as int));
        append_mesh_triangles(&file.meshes[at], at, bone, &mut out);
        i += 1;
    }
    assert(item_views(out@).len() == out@.len());
    if out.len() == 0 {
        return Err(PreviewError::NothingVisible);
    }
    Ok(out)
}

// ---------------------------------------------------------------------------
// Textures
// ---------------------------------------------------------------------------
/// What to do about a texture.
#[derive(Debug, Clone, Copy, PartialEq, Eq, Structural)]
pub enum TextureStep {
    /// It has no name, or was dealt with.
    Skip,
    /// Load it.
    Load,
}

/// The textures that were dealt with, and the pixels they take.
pub struct TextureBudget {
    seen: Vec<String>,
    pixels: u64,
}

impl TextureBudget {
    /// The textures that were dealt with.
    pub closed spec fn names(&self) -> Seq<Seq<char>> {
        item_views(self.seen@)
    }

    /// The pixels they take.
    pub closed spec fn used(&self) -> u64 {
        self.pixels
    }

    pub fn new() -> (budget: Self)
        ensures
            budget.names() == Seq::<Seq<char>>::empty(),
            budget.used() == 0,
    {
        let budget = TextureBudget { seen: Vec::new(), pixels: 0 };
        assert(item_views(budget.seen@) =~= Seq::<Seq<char>>::empty());
        budget
    }

    /// What to do about the texture of the next triangle. Each texture, in
    /// whatever case, is loaded once; too many are an error.
    pub fn request(&mut self, name: &str) -> (out: Result<TextureStep, PreviewError>)
        ensures
            final(self).used() == old(self).used(),
            if name@.len() == 0 || lists_name(old(self).names(), name@) {
                out == Ok::<TextureStep, PreviewError>(TextureStep::Skip) && final(self).names()
                    == old(self).names()
            } else if old(self).names().len() == MAX_RENDER_TEXTURES {
                out == Err::<TextureStep, PreviewError>(PreviewError::TextureCount) && final(self).names() == old(self).names()
            } else {
                out == Ok::<TextureStep, PreviewError>(TextureStep::Load) && final(self).names()
                    == old(self).names().push(name@)
            },
    {
        if name.is_empty() {
            return Ok(TextureStep::Skip);
        }
        let ghost all = item_views(self.seen@);
        let mut i: usize = 0;
        while i < self.seen.len()
            invariant
                i <= self.seen.len(),
                all == item_views(self.seen@),
                self.seen == old(self).seen,
                self.pixels == old(self).pixels,
                forall|j: int| 0 <= j < i ==> !same_ignoring_case(#[trigger] all[j], name@),
            decreases self.seen.len() - i,
        {
            assert(all[i as int] == self.seen@[i as int]@);
            if self.seen[i].as_str().eq_ignore_ascii_case(name) {
                assert(lists_name(all, name@));
                return Ok(TextureStep::Skip);
            }
            i += 1;
        }
        assert(!lists_name(all, name@));
        if self.seen.len() == MAX_RENDER_TEXTURES {
            return Err(PreviewError::TextureCount);
        }
        self.seen.push(name.to_string());
        assert(item_views(self.seen@) =~= all.push(name@));
        Ok(TextureStep::Load)
    }

    /// Count the pixels of a texture.
    pub fn charge(&mut self, width: u32, height: u32) -> (out: Result<(), PreviewError>)
        requires
            old(self).used() <= MAX_RENDER_TEXTURE_PIXELS,
        ensures
            final(self).names() == old(self).names(),
            final(self).used() <= MAX_RENDER_TEXTURE_PIXELS,
            if old(self).used() + width * height <= MAX_RENDER_TEXTURE_PIXELS {
                out == Ok::<(), PreviewError>(()) && final(self).used() == old(self).used() + width
                    * height
            } else {
                out == Err::<(), PreviewError>(PreviewError::TextureMemory) && final(self).used()
                    == old(self).used()
            },
    {
        proof {
            let w = width as int;
            let h = height as int;
            assert(0 <= w * h <= 0xffff_ffff * 0xffff_ffff) by (nonlinear_arith)
                requires
                    0 <= w <= 0xffff_ffff,
                    0 <= h <= 0xffff_ffff,
            ;
        }
        let size: u64 = width as u64 * height as u64;
        if size > MAX_RENDER_TEXTURE_PIXELS - self.pixels {
            return Err(PreviewError::TextureMemory);
        }
        self.pixels = self.pixels + size;
        Ok(())
    }
}

/// Whether a decoded texture is of a size that can be used.
pub open spec fn texture_fits(width: u32, height: u32) -> bool {
    width <= MAX_TEXTURE_SIDE && height <= MAX_TEXTURE_SIDE && width * height * 4
        <= MAX_TEXTURE_BYTES
}

/// Whether a decoded texture is of a size that can be used.
pub fn fits_texture(width: u32, height: u32) -> (yes: bool)
    ensures
        yes == texture_fits(width, height),
{
    if width > MAX_TEXTURE_SIDE || height > MAX_TEXTURE_SIDE {
        return false;
    }
    proof {
        let w = width as int;
        let h = height as int;
        assert(0 <= w * h <= 4096 * 4096) by (nonlinear_arith)
            requires
                0 <= w <= 4096,
                0 <= h <= 4096,
        ;
    }
    width as u64 * height as u64 * 4 <= MAX_TEXTURE_BYTES
}

pub open spec fn missing_keys(names: Seq<Seq<char>>) -> Seq<KeyView> {
    names.map_values(|name: Seq<char>| KeyView { text: lower(name), rank: 0 })
}

/// A list without repetitions, in whatever case, of the item before.
pub open spec fn without_echoes(names: Seq<Seq<char>>) -> Seq<Seq<char>>
    decreases names.len(),
{
    if names.len() == 0 {
        Seq::empty()
    } else {
        let rest = without_echoes(names.drop_last());
        if rest.len() > 0 && same_ignoring_case(names.last(), rest.last()) {
            rest
        } else {
            rest.push(names.last())
        }
    }
}

/// The missing textures of a preview: in order, each once, in whatever case.
pub fn report_missing(names: &Vec<String>) -> (out: Vec<String>)
    ensures
        ({
            let all = item_views(names@);
            item_views(out@) == without_echoes(reordered(all, sorted_order(missing_keys(all))))
        }),
{
    let ghost all = item_views(names@);
    let mut keys: Vec<SortKey> = Vec::new();
    let mut i: usize = 0;
    while i < names.len()
        invariant
            i <= names.len(),
            all == item_views(names@),
            keys.len() == i,
            forall|j: int|
                0 <= j < i ==> (#[trigger] keys[j])@ == (KeyView { text: lower(all[j]), rank: 0 }),
        decreases names.len() - i,
    {
        assert(all[i as int] == names@[i as int]@);
        keys.push(SortKey { text: names[i].as_str().to_ascii_lowercase(), rank: 0 });
        i += 1;
    }
    assert(key_views(keys@) =~= missing_keys(all));
    let order = sort_indices(&keys);
    let ghost sorted = reordered(all, sorted_order(missing_keys(all)));
    let ghost ints = indices(order@);
    let mut out: Vec<String> = Vec::new();
    let mut i: usize = 0;
    assert(sorted.take(0) =~= Seq::<Seq<char>>::empty());
    assert(item_views(out@) =~= Seq::<Seq<char>>::empty());
    while i < order.len()
        invariant
            i <= order.len(),
            order.len() == names.len(),
            all == item_views(names@),
            ints == indices(order@),
            ints == sorted_order(missing_keys(all)),
            sorted == reordered(all, ints),
            forall|j: int| 0 <= j < order.len() ==> #[trigger] order[j] < names.len(),
            item_views(out@) == without_echoes(sorted.take(i as int)),
        decreases order.len() - i,
    {
        let ghost before = item_views(out@);
        let name = &names[order[i]];
        proof {
            assert(ints[i as int] == order[i as int]);
            assert(all[order[i as int] as int] == name@);
            assert(sorted[i as int] == name@);
            assert(sorted.take(i + 1).drop_last() =~= sorted.take(i as int));
            assert(sorted.take(i + 1).last() == name@);
        }
        let echo = if out.len() > 0 {
            assert(before.last() == out@[out@.len() - 1]@);
            name.as_str().eq_ignore_ascii_case(&out[out.len() - 1])
        } else {
            false
        };
        if !echo {
            out.push(name.clone());
            assert(item_views(out@) =~= before.push(name@));
        }
        i += 1;
    }
    assert(sorted.take(i as int) =~= sorted);
    out
}

// ---------------------------------------------------------------------------
// Pixels
// ---------------------------------------------------------------------------
/// The grey of the background at a pixel: a checkerboard of two greys.
pub fn background(x: u32, y: u32) -> (grey: u8)
    ensures
        grey == if (x / 12 + y / 12) % 2 == 0 {
            96u8
        } else {
            108u8
        },
{
    if (x / 12) % 2 == (y / 12) % 2 {
        96
    } else {
        108
    }
}

/// The color of the stand-in for a missing texture at a pixel.
pub fn missing_pixel(x: u32, y: u32) -> (color: (u8, u8, u8))
    ensures
        color == if (x / 2 + y / 2) % 2 == 0 {
            (255u8, 0u8, 255u8)
        } else {
            (25u8, 25u8, 25u8)
        },
{
    if (x / 2) % 2 == (y / 2) % 2 {
        (255, 0, 255)
    } else {
        (25, 25, 25)
    }
}

/// Take the samples of a rectangle of pixels off a budget.
pub fn charge_samples(left: u64, min_x: u32, max_x: u32, min_y: u32, max_y: u32) -> (out: Result<
    u64,
    PreviewError,
>)
    requires
        min_x <= max_x < WIDTH,
        min_y <= max_y < HEIGHT,
    ensures
        ({
            let samples = (max_x - min_x + 1) * (max_y - min_y + 1);
            match out {
                Ok(rest) => rest == left - samples,
                Err(error) => error == PreviewError::RasterWork && samples > left,
            }
        }),
{
    proof {
        let w = max_x - min_x + 1;
        let h = max_y - min_y + 1;
        assert(0 <= w * h <= 160 * 120) by (nonlinear_arith)
            requires
                0 <= w <= 160,
                0 <= h <= 120,
        ;
    }
    let samples: u64 = (max_x - min_x + 1) as u64 * (max_y - min_y + 1) as u64;
    if samples > left {
        Err(PreviewError::RasterWork)
    } else {
        Ok(left - samples)
    }
}

// ---------------------------------------------------------------------------
// Laws
// ---------------------------------------------------------------------------
proof fn lemma_part_meshes(meshes: Seq<MeshInfo>, parts: Seq<SubObject>, n: nat, i: int)
    requires
        0 <= i < part_meshes(meshes, parts, n).len(),
    ensures
        ({
            let (at, _) = part_meshes(meshes, parts, n)[i];
            0 <= at < meshes.len() && is_visible(meshes[at].attributes)
        }),
    decreases n,
{
    let rest = part_meshes(meshes, parts, (n - 1) as nat);
    if i < rest.len() {
        lemma_part_meshes(meshes, parts, (n - 1) as nat, i);
    } else {
        lemma_mesh_position(meshes, parts[n - 1].name@, 0);
    }
}

proof fn lemma_mesh_position(meshes: Seq<MeshInfo>, name: Seq<char>, i: int)
    requires
        0 <= i <= meshes.len(),
    ensures
        i <= mesh_position(meshes, name, i) <= meshes.len(),
    decreases meshes.len() - i,
{
    if i < meshes.len() && mesh_position(meshes, name, i) != i {
        lemma_mesh_position(meshes, name, i + 1);
    }
}

proof fn lemma_plain_meshes(meshes: Seq<MeshInfo>, name: Option<Seq<char>>, n: nat, i: int)
    requires
        n <= meshes.len(),
        0 <= i < plain_meshes(meshes, name, n).len(),
    ensures
        ({
            let (at, _) = plain_meshes(meshes, name, n)[i];
            0 <= at < meshes.len() && is_visible(meshes[at].attributes)
        }),
    decreases n,
{
    let rest = plain_meshes(meshes, name, (n - 1) as nat);
    if i < rest.len() {
        lemma_plain_meshes(meshes, name, (n - 1) as nat, i);
    }
}

/// Law: a preview draws only meshes of the file, and none that is hidden or only
/// there for collisions.
pub proof fn previews_draw_visible_meshes(file: ModelInfo, model: Seq<char>, i: int)
    requires
        0 <= i < meshes_of(file, model).len(),
    ensures
        ({
            let (at, _) = meshes_of(file, model)[i];
            0 <= at < file.meshes.len() && is_visible(file.meshes[at].attributes)
        }),
{
    let at = hlod_position(file.hlods@, model, 0);
    let meshes = file.meshes@;
    if at < file.hlods.len() && hlod_meshes(file, file.hlods[at]).len() > 0 {
        let parts = parts_of(file.hlods[at]);
        lemma_part_meshes(meshes, parts, parts.len(), i);
    } else if plain_meshes(meshes, Some(model), meshes.len()).len() > 0 {
        lemma_plain_meshes(meshes, Some(model), meshes.len(), i);
    } else if file.hlods.len() > 0 && hlod_meshes(file, file.hlods[0]).len() > 0 {
        let parts = parts_of(file.hlods[0]);
        lemma_part_meshes(meshes, parts, parts.len(), i);
    } else {
        lemma_plain_meshes(meshes, None, meshes.len(), i);
    }
}

/// Law: the level of detail that is drawn is for no smaller a screen size than
/// any other.
pub proof fn finest_level_is_largest(lods: Seq<Lod>, n: nat, k: int)
    requires
        0 <= k < n <= lods.len(),
    ensures
        0 <= finest(lods, n) < n,
        lods[k].order <= lods[finest(lods, n)].order,
    decreases n,
{
    if n > 1 {
        if k < n - 1 {
            finest_level_is_largest(lods, (n - 1) as nat, k);
        } else {
            finest_level_is_largest(lods, (n - 1) as nat, 0);
        }
    }
}

} // verus!
