//! What a model preview draws and what it may cost.

use zerosyntax::preview::{
    background, charge_samples, find_mesh, fits_texture, mesh_matches, meshes_for_hlod,
    missing_pixel, plan_preview, plan_triangle, report_missing, selected_hierarchy, selected_meshes,
    triangle_budget, two_sided, visible, Corner, Hlod, Lod, MeshInfo, ModelInfo, PreviewError,
    SubObject, TextureBudget, TextureStep, HEIGHT, MAX_RASTER_SAMPLES, MAX_RENDER_TEXTURES, WIDTH,
};

fn mesh(name: &str, triangles: usize, textures: usize) -> MeshInfo {
    MeshInfo {
        name: name.to_string(),
        container: String::new(),
        attributes: 0,
        triangles: vec![(0, 1, 2); triangles],
        vertices: 3,
        textures: (0..textures).map(|index| format!("{index}.tga")).collect(),
        texture_ids: (0..triangles)
            .map(|index| (index % textures.max(1)) as u32)
            .collect(),
        face_uv_ids: vec![],
        influences: vec![],
    }
}

fn model(meshes: Vec<MeshInfo>) -> ModelInfo {
    ModelInfo {
        hierarchies: vec![],
        hlods: vec![],
        meshes,
    }
}

fn part(name: &str, bone: usize) -> SubObject {
    SubObject {
        name: name.to_string(),
        bone,
    }
}

/// The textures that are loaded for a model's triangles.
fn request_textures(mesh: &MeshInfo) -> Result<usize, PreviewError> {
    let mut budget = TextureBudget::new();
    let mut loads = 0;
    for i in 0..mesh.triangles.len() {
        let triangle = plan_triangle(mesh, 0, 0, i).unwrap();
        if budget.request(&triangle.texture)? == TextureStep::Load {
            loads += 1;
        }
    }
    Ok(loads)
}

#[test]
fn thumbnail_rejects_excessive_triangle_and_texture_work() {
    let heavy = model(vec![mesh("Budget", 10_001, 0)]);
    assert!(matches!(
        plan_preview(&heavy, "Budget"),
        Err(PreviewError::Triangles)
    ));
    let selected = selected_meshes(&heavy, "Budget");
    assert_eq!(
        triangle_budget(&heavy.meshes, &selected),
        Err(PreviewError::Triangles)
    );

    let mut left = MAX_RASTER_SAMPLES;
    let mut drawn = 0;
    let result = loop {
        match charge_samples(left, 0, WIDTH - 1, 0, HEIGHT - 1) {
            Ok(rest) => left = rest,
            Err(error) => break error,
        }
        drawn += 1;
    };
    assert_eq!(result, PreviewError::RasterWork);
    assert!(drawn < 500);

    assert_eq!(
        request_textures(&mesh("Budget", 33, 33)),
        Err(PreviewError::TextureCount)
    );
    assert_eq!(request_textures(&mesh("Budget", 64, 32)), Ok(MAX_RENDER_TEXTURES));
}

#[test]
fn errors_have_messages() {
    let errors = [
        PreviewError::Triangles,
        PreviewError::NothingVisible,
        PreviewError::TextureCount,
        PreviewError::TextureMemory,
        PreviewError::RasterWork,
        PreviewError::Encoding,
    ];
    for (i, error) in errors.iter().enumerate() {
        assert!(!error.message().is_empty());
        for other in &errors[..i] {
            assert_ne!(error.message(), other.message());
        }
    }
}

#[test]
fn previews_without_triangles_show_nothing() {
    let empty = model(vec![mesh("Empty", 0, 0)]);
    assert!(matches!(
        plan_preview(&empty, "Empty"),
        Err(PreviewError::NothingVisible)
    ));
    let mut broken = mesh("Broken", 2, 0);
    broken.triangles[0] = (0, 1, 9);
    let plan = plan_preview(&model(vec![mesh("Other", 1, 0), broken]), "Broken").unwrap();
    assert_eq!(plan.len(), 1);
    assert_eq!(plan[0].mesh, 1);
}

#[test]
fn hidden_meshes_are_not_drawn() {
    let mut hidden = mesh("Hidden", 1, 0);
    hidden.attributes = 0x1000;
    assert!(!visible(hidden.attributes));
    assert!(visible(0));
    assert!(two_sided(0x2000));
    assert!(!two_sided(0));
    let file = model(vec![hidden, mesh("Shown", 1, 0)]);
    let selected = selected_meshes(&file, "Any");
    assert_eq!(selected.iter().map(|pair| pair.0).collect::<Vec<_>>(), vec![1]);
}

#[test]
fn the_finest_level_is_drawn() {
    let file = ModelInfo {
        hierarchies: vec!["Other".to_string(), "Skel".to_string()],
        hlods: vec![Hlod {
            name: "Tank".to_string(),
            hierarchy: "skel".to_string(),
            aggregates: vec![],
            lods: vec![
                Lod {
                    order: 0,
                    subobjects: vec![part("Tank.Coarse", 1)],
                },
                Lod {
                    order: 1,
                    subobjects: vec![part("Tank.Fine", 2)],
                },
            ],
        }],
        meshes: vec![mesh("Coarse", 1, 0), mesh("Fine", 1, 0)],
    };
    assert_eq!(selected_hierarchy(&file, "TANK"), Some(1));
    let drawn = meshes_for_hlod(&file, &file.hlods[0]);
    assert_eq!(drawn, selected_meshes(&file, "tank"));
    assert_eq!(drawn.len(), 1);
}

#[test]
fn meshes_are_found_by_either_name() {
    let mut turret = mesh("Turret", 1, 0);
    turret.container = "Tank".to_string();
    assert!(mesh_matches(&turret, "turret"));
    assert!(mesh_matches(&turret, "Tank.Turret"));
    assert!(!mesh_matches(&turret, "Hull"));
    assert_eq!(find_mesh(&vec![mesh("Hull", 1, 0), turret], "Turret"), Some(1));
    assert_eq!(find_mesh(&vec![], "Turret"), None);
}

#[test]
fn corners_take_their_own_coordinates() {
    let mut plain = mesh("Plain", 1, 1);
    let triangle = plan_triangle(&plain, 0, 4, 0).unwrap();
    assert_eq!(
        triangle.corners[1],
        Corner {
            vertex: 1,
            uv: 1,
            bone: 4
        }
    );
    assert_eq!(triangle.texture, "0.tga");
    plain.face_uv_ids = vec![5, 6, 7];
    plain.influences = vec![9];
    let triangle = plan_triangle(&plain, 0, 4, 0).unwrap();
    assert_eq!(
        triangle.corners[0],
        Corner {
            vertex: 0,
            uv: 5,
            bone: 9
        }
    );
    assert_eq!(triangle.corners[2].uv, 7);
    plain.vertices = 2;
    assert!(plan_triangle(&plain, 0, 4, 0).is_none());
}

#[test]
fn textures_are_loaded_once_and_bounded() {
    let mut budget = TextureBudget::new();
    assert_eq!(budget.request("a.tga"), Ok(TextureStep::Load));
    assert_eq!(budget.request("A.TGA"), Ok(TextureStep::Skip));
    assert_eq!(budget.request(""), Ok(TextureStep::Skip));
    assert_eq!(budget.charge(4096, 4096), Ok(()));
    assert_eq!(budget.charge(1, 1), Err(PreviewError::TextureMemory));
    assert!(fits_texture(4096, 4096));
    assert!(!fits_texture(4097, 1));
}

#[test]
fn missing_textures_are_listed_once() {
    let names: Vec<String> = ["b.tga", "A.tga", "a.TGA", "b.tga"]
        .iter()
        .map(|name| name.to_string())
        .collect();
    assert_eq!(report_missing(&names), vec!["A.tga", "b.tga"]);
}

#[test]
fn checkerboards_alternate() {
    assert_eq!(background(0, 0), 96);
    assert_eq!(background(12, 0), 108);
    assert_eq!(background(12, 12), 96);
    assert_eq!(missing_pixel(0, 0), (255, 0, 255));
    assert_eq!(missing_pixel(2, 0), (25, 25, 25));
}
