use std::io::Cursor;

use rtin_terrain::heightmaps::{
    generate_heightmap_data, generate_vertices, get_mapsize, heightfield_from_image, Heightfield,
    TerrainError,
};

/// A binary portable graymap: its two magic bytes, the size, the largest level, the levels.
fn pgm(width: u32, height: u32, levels: &[u8]) -> Vec<u8> {
    let mut bytes: Vec<u8> = vec![0x50, 0x35];
    bytes.extend_from_slice(format!("\n{} {}\n255\n", width, height).as_bytes());
    bytes.extend_from_slice(levels);
    bytes
}

fn gray_png(width: u32, height: u32, levels: &[u8]) -> Vec<u8> {
    let img = image::GrayImage::from_raw(width, height, levels.to_vec()).unwrap();
    png_of(&image::DynamicImage::ImageLuma8(img))
}

fn png_of(img: &image::DynamicImage) -> Vec<u8> {
    let mut bytes: Vec<u8> = Vec::new();
    img.write_to(&mut Cursor::new(&mut bytes), image::ImageOutputFormat::Png).unwrap();
    bytes
}

#[test]
fn from_samples_accepts_valid_grids() {
    let field = Heightfield::from_samples(3, 3, vec![1, 2, 3, 4, 5, 6, 7, 8, 9]).unwrap();
    assert_eq!(field.side(), 3);
    assert_eq!(field.samples(), &vec![1, 2, 3, 4, 5, 6, 7, 8, 9]);
    assert_eq!(field.sample(0, 0), 1);
    assert_eq!(field.sample(0, 2), 3);
    assert_eq!(field.sample(1, 0), 4);
    assert_eq!(field.sample(2, 1), 8);
    let field = Heightfield::from_samples(257, 257, vec![0; 257 * 257]).unwrap();
    assert_eq!(field.side(), 257);
}

#[test]
fn from_samples_refuses_grids_that_are_not_square() {
    let r = Heightfield::from_samples(3, 5, vec![0; 15]);
    assert_eq!(r.err(), Some(TerrainError::ShapeError));
    let r = Heightfield::from_samples(5, 3, vec![0; 15]);
    assert_eq!(r.err(), Some(TerrainError::ShapeError));
}

#[test]
fn from_samples_refuses_sides_that_are_not_a_power_of_two_plus_one() {
    for side in [0u32, 1, 2, 4, 6, 7, 8, 10, 16, 100] {
        let r = Heightfield::from_samples(side, side, vec![0; (side * side) as usize]);
        assert_eq!(r.err(), Some(TerrainError::ShapeError), "side {}", side);
    }
}

#[test]
fn from_samples_refuses_a_wrong_number_of_samples() {
    assert_eq!(Heightfield::from_samples(3, 3, vec![0; 8]).err(), Some(TerrainError::ShapeError));
    assert_eq!(Heightfield::from_samples(3, 3, vec![0; 10]).err(), Some(TerrainError::ShapeError));
    assert_eq!(Heightfield::from_samples(3, 3, vec![]).err(), Some(TerrainError::ShapeError));
}

#[test]
fn scale_heights_multiplies_every_sample() {
    let field = Heightfield::from_samples(3, 3, vec![0, 1, 2, 3, 4, 5, 6, 7, 255]).unwrap();
    assert_eq!(field.scale_heights(1000), vec![0, 1000, 2000, 3000, 4000, 5000, 6000, 7000, 255000]);
    assert_eq!(field.scale_heights(0), vec![0; 9]);
    assert_eq!(field.scale_heights(u32::MAX)[8], 255 * u32::MAX as u64);
}

#[test]
fn mesh_indices_of_a_five_by_five_grid() {
    let samples: Vec<u8> = (0..25u32).map(|i| ((7 * i * i + 3 * i) % 256) as u8).collect();
    let field = Heightfield::from_samples(5, 5, samples).unwrap();
    assert_eq!(
        field.mesh_indices(2, 700),
        vec![4, 0, 12, 24, 4, 12, 20, 24, 12, 12, 0, 10, 20, 12, 10]
    );
    assert_eq!(field.mesh_indices(2, 1000), vec![0, 24, 4, 24, 0, 20]);
    assert_eq!(field.mesh_indices(1, 350), vec![4, 0, 12, 24, 4, 12, 20, 24, 12, 12, 0, 10, 20, 12, 10]);
    assert_eq!(field.mesh_indices(0, 0), vec![0, 24, 4, 24, 0, 20]);
}

#[test]
fn decoding_reads_the_levels_of_a_gray_image() {
    let levels: Vec<u8> = (0..25u8).map(|i| i * 10).collect();
    for bytes in [pgm(5, 5, &levels), gray_png(5, 5, &levels)] {
        let field = generate_heightmap_data(&bytes).unwrap();
        assert_eq!(field.side(), 5);
        assert_eq!(field.samples(), &levels);
        assert_eq!(field.sample(1, 2), 70);
        assert_eq!(field.sample(2, 1), 110);
    }
}

#[test]
fn decoding_turns_colours_to_gray() {
    let mut img = image::RgbImage::new(3, 3);
    img.put_pixel(0, 0, image::Rgb([0, 255, 0]));
    img.put_pixel(1, 0, image::Rgb([255, 0, 0]));
    img.put_pixel(2, 0, image::Rgb([0, 0, 255]));
    img.put_pixel(0, 1, image::Rgb([10, 200, 30]));
    img.put_pixel(2, 2, image::Rgb([255, 255, 255]));
    let img = image::DynamicImage::ImageRgb8(img);
    let expected: Vec<u8> = vec![182, 54, 18, 147, 0, 0, 0, 0, 255];
    let field = heightfield_from_image(&img).unwrap();
    assert_eq!(field.side(), 3);
    assert_eq!(field.samples(), &expected);
    let field = generate_heightmap_data(&png_of(&img)).unwrap();
    assert_eq!(field.side(), 3);
    assert_eq!(field.samples(), &expected);
}

#[test]
fn decoding_narrows_sixteen_bit_levels() {
    let mut img: image::ImageBuffer<image::Luma<u16>, Vec<u16>> = image::ImageBuffer::new(3, 3);
    img.put_pixel(1, 1, image::Luma([65535]));
    img.put_pixel(2, 1, image::Luma([32768]));
    let img = image::DynamicImage::ImageLuma16(img);
    let field = heightfield_from_image(&img).unwrap();
    assert_eq!(field.samples(), &vec![0, 0, 0, 0, 255, 128, 0, 0, 0]);
}

#[test]
fn decoding_refuses_bytes_that_are_no_image() {
    let r = generate_heightmap_data(b"this is not an image");
    assert_eq!(r.err(), Some(TerrainError::DecodeError));
    let r = generate_heightmap_data(&[]);
    assert_eq!(r.err(), Some(TerrainError::DecodeError));
    let mut cut = pgm(5, 5, &[0; 25]);
    cut.truncate(20);
    assert_eq!(generate_heightmap_data(&cut).err(), Some(TerrainError::DecodeError));
}

#[test]
fn decoding_refuses_images_of_a_wrong_shape() {
    let r = generate_heightmap_data(&pgm(5, 3, &[0; 15]));
    assert_eq!(r.err(), Some(TerrainError::ShapeError));
    let r = generate_heightmap_data(&gray_png(4, 4, &[0; 16]));
    assert_eq!(r.err(), Some(TerrainError::ShapeError));
    let r = generate_heightmap_data(&pgm(1, 1, &[0; 1]));
    assert_eq!(r.err(), Some(TerrainError::ShapeError));
    let img = image::DynamicImage::ImageLuma8(image::GrayImage::new(6, 6));
    assert_eq!(heightfield_from_image(&img).err(), Some(TerrainError::ShapeError));
}

#[test]
fn get_mapsize_is_the_height_of_the_image() {
    assert_eq!(get_mapsize(&pgm(5, 5, &[0; 25])), Ok(5));
    assert_eq!(get_mapsize(&gray_png(4, 7, &[0; 28])), Ok(7));
    assert_eq!(get_mapsize(b"no image"), Err(TerrainError::DecodeError));
}

#[test]
fn generate_vertices_cuts_the_mesh_of_the_image() {
    let levels: Vec<u8> = (0..25u32).map(|i| ((7 * i * i + 3 * i) % 256) as u8).collect();
    let bytes = pgm(5, 5, &levels);
    assert_eq!(
        generate_vertices(&bytes, 2, 520),
        Ok(vec![
            2, 12, 8, 4, 2, 8, 0, 12, 2, 12, 24, 14, 14, 4, 8, 12, 14, 8, 20, 24, 12, 12, 0, 10,
            20, 12, 10
        ])
    );
    assert_eq!(generate_vertices(&bytes, 2, 784), Ok(vec![0, 24, 4, 24, 0, 20]));
    assert_eq!(generate_vertices(b"junk", 2, 0), Err(TerrainError::DecodeError));
    assert_eq!(generate_vertices(&pgm(4, 4, &[0; 16]), 2, 0), Err(TerrainError::ShapeError));
}

#[test]
fn generate_vertices_on_a_spike() {
    let mut levels = [0u8; 25];
    levels[12] = 255;
    // a tolerance of a hundredth of the height range, in half steps of 1/255
    let mesh = generate_vertices(&pgm(5, 5, &levels), 1000, 5).unwrap();
    assert_eq!(
        mesh,
        vec![
            8, 2, 7, 12, 8, 7, 4, 2, 8, 2, 0, 6, 6, 12, 7, 2, 6, 7, 18, 14, 13, 12, 18, 13, 24,
            14, 18, 14, 4, 8, 8, 12, 13, 14, 8, 13, 16, 22, 17, 12, 16, 17, 20, 22, 16, 22, 24,
            18, 18, 12, 17, 22, 18, 17, 6, 10, 11, 12, 6, 11, 0, 10, 6, 10, 20, 16, 16, 12, 11,
            10, 16, 11
        ]
    );
    assert!(mesh.len() / 3 > 2 && mesh.len() / 3 <= 32);
    assert!(mesh.contains(&12));
}
