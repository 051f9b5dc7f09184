use rustforge::font::{atlas_index, build_atlas, blit_glyph, cell_origin, quad_indices, GlyphBitmap, ATLAS_PIXELS};
use rustforge::mesh::{cube_indices, skybox_indices, sphere_grid, sphere_indices, two_face_indices};

#[test]
fn cube_triangle_list_indexes_four_vertices_per_face() {
    let indices = cube_indices();
    assert_eq!(indices.len(), 36);
    assert!(indices.iter().all(|&i| i < 24));
}

#[test]
fn test_create_sphere() {
    let vertices = sphere_grid(16, 16);
    let indices = sphere_indices(16, 16);
    assert_eq!(vertices.len(), (16 + 1) * (16 + 1));
    assert!(indices.len() > 0);
}

#[test]
fn test_create_indices() {
    let indices = skybox_indices();
    assert_eq!(indices.len(), 36);
}

#[test]
fn sphere_index_counts_and_ranges() {
    assert_eq!(sphere_indices(0, 8).len(), 0);
    assert_eq!(sphere_indices(1, 8).len(), 0);
    assert_eq!(sphere_indices(2, 4).len(), 24);
    let idx = sphere_indices(16, 16);
    assert_eq!(idx.len(), 6 * 16 * 15);
    assert!(idx.iter().all(|&i| i < 17 * 17));
    assert_eq!(&sphere_indices(3, 2)[0..6], &[1, 3, 4, 2, 4, 5]);
}

#[test]
fn sphere_grid_is_ring_major() {
    let g = sphere_grid(2, 3);
    assert_eq!(g.len(), 12);
    assert_eq!(g[0], (0, 0));
    assert_eq!(g[3], (0, 3));
    assert_eq!(g[4], (1, 0));
    assert_eq!(g[11], (2, 3));
}

#[test]
fn two_face_cube_indices() {
    assert_eq!(two_face_indices(), vec![0, 1, 2, 2, 3, 0, 4, 5, 6, 6, 7, 4]);
}

#[test]
fn atlas_cells_follow_ascii() {
    assert_eq!(atlas_index(' '), 0);
    assert_eq!(atlas_index('A'), 33);
    assert_eq!(atlas_index('~'), 94);
    assert_eq!(atlas_index('\u{e9}'), 0);
    assert_eq!(atlas_index('\n'), 0);
    assert_eq!(cell_origin(33), (24, 64));
    assert_eq!(cell_origin(15), (360, 0));
}

#[test]
fn glyphs_are_copied_into_their_cells() {
    let mut pixels = vec![0u8; ATLAS_PIXELS];
    let g = GlyphBitmap { width: 2, height: 2, ymin: 1, bitmap: vec![1, 2, 3, 4] };
    blit_glyph(&mut pixels, 17, &g);
    // Cell 17 starts at (24, 32); rows move down by ymin = 1.
    assert_eq!(pixels[33 * 384 + 24], 1);
    assert_eq!(pixels[33 * 384 + 25], 2);
    assert_eq!(pixels[34 * 384 + 24], 3);
    assert_eq!(pixels[34 * 384 + 25], 4);
    assert_eq!(pixels.iter().filter(|&&p| p != 0).count(), 4);
}

#[test]
fn wide_glyphs_are_clipped_to_the_cell() {
    let mut pixels = vec![0u8; ATLAS_PIXELS];
    let g = GlyphBitmap { width: 30, height: 1, ymin: -3, bitmap: vec![9; 30] };
    blit_glyph(&mut pixels, 0, &g);
    assert_eq!(pixels.iter().filter(|&&p| p == 9).count(), 24);
    assert_eq!(pixels[24], 0);
}

#[test]
fn atlas_is_built_in_cell_order() {
    let glyphs = vec![
        GlyphBitmap { width: 1, height: 1, ymin: 0, bitmap: vec![5] },
        GlyphBitmap { width: 1, height: 1, ymin: 0, bitmap: vec![6] },
    ];
    let atlas = build_atlas(&glyphs);
    assert_eq!(atlas.len(), ATLAS_PIXELS);
    assert_eq!(atlas[0], 5);
    assert_eq!(atlas[24], 6);
}

#[test]
fn quad_triangles() {
    assert_eq!(quad_indices(8), [8, 9, 10, 8, 10, 11]);
}
