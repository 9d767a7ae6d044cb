use rocom_pets::model::{connected_parts, decode_texture, Image, Interpolation, Primitive, Property};

fn sorted(mut parts: Vec<Vec<usize>>) -> Vec<Vec<usize>> {
    parts.sort();
    parts
}

#[test]
fn triangles_that_share_a_vertex_are_one_piece() {
    // two triangles sharing vertex 2, and a loose triangle
    let indices = [0, 1, 2, 2, 3, 4, 7, 8, 9];
    let parts = sorted(connected_parts(&indices));
    assert_eq!(parts, vec![vec![0, 1, 2, 3, 4], vec![7, 8, 9]]);
}

#[test]
fn a_piece_lists_vertices_in_order_of_first_appearance() {
    let indices = [5, 3, 9, 9, 1, 3];
    let parts = connected_parts(&indices);
    assert_eq!(parts, vec![vec![5, 3, 9, 1]]);
}

#[test]
fn a_trailing_partial_triangle_joins_nothing() {
    let indices = [0, 1, 2, 3, 4];
    let parts = sorted(connected_parts(&indices));
    assert_eq!(parts, vec![vec![0, 1, 2], vec![3], vec![4]]);
    assert!(connected_parts(&[]).is_empty());
}

#[test]
fn joining_through_a_chain_of_triangles() {
    // 0-1-2, 3-4-5, 2-6-3: the third triangle bridges the first two
    let indices = [0, 1, 2, 3, 4, 5, 2, 6, 3, 10, 11, 12];
    let parts = sorted(connected_parts(&indices));
    assert_eq!(parts, vec![vec![0, 1, 2, 3, 4, 5, 6], vec![10, 11, 12]]);
}

#[test]
fn alpha_coverage_counts_texels_above_half() {
    let image = Image { width: 2, height: 2, rgba: vec![0, 0, 0, 255, 0, 0, 0, 128, 0, 0, 0, 129, 9, 9, 9, 0, 1, 2] };
    assert_eq!(image.alpha_coverage(), (2, 4));
    let empty = Image { width: 0, height: 0, rgba: vec![] };
    assert_eq!(empty.alpha_coverage(), (0, 0));
}

#[test]
fn plain_model_types() {
    let p = Primitive { first_index: 6, index_count: 3, material: 1 };
    assert_eq!(p, Primitive { first_index: 6, index_count: 3, material: 1 });
    assert_ne!(Property::Rotation, Property::Scale);
    assert_eq!(Interpolation::Step, Interpolation::Step);
    assert_ne!(Property::Translation, Property::Rotation);
    assert_ne!(Interpolation::Linear, Interpolation::Step);
}

#[test]
fn textures_decode_to_rgba() {
    let mut src = image::RgbaImage::new(2, 1);
    src.put_pixel(0, 0, image::Rgba([10, 20, 30, 255]));
    src.put_pixel(1, 0, image::Rgba([1, 2, 3, 4]));
    let mut png = Vec::new();
    src.write_to(&mut std::io::Cursor::new(&mut png), image::ImageFormat::Png).unwrap();
    let img = decode_texture(&png).expect("a PNG decodes");
    assert_eq!((img.width, img.height), (2, 1));
    assert_eq!(img.rgba, vec![10, 20, 30, 255, 1, 2, 3, 4]);
    assert_eq!(img.alpha_coverage(), (1, 2));
    assert!(decode_texture(b"not an image").is_none());
}
