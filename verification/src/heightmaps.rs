//! Height grids and how they are read from an encoded image.
//!
//! A height grid holds one 8-bit sample for every vertex of a square grid
//! whose side is `2^k + 1`. The normalized height of a sample is the sample
//! divided by 255. Decoding the image and turning it to gray is left to the
//! `image` crate; the library checks the shape and reads the samples.

use vstd::prelude::*;
use crate::error_map::{error_map, generate_error_map, heights_bounded, MAX_HEIGHT};
use crate::extract::{extract_triangles, extracted};
use crate::grid::{flat_index, side_rank, valid_side};

verus! {

/// Why no mesh could be made.
#[derive(Clone, Copy, Debug, PartialEq, Eq)]
pub enum TerrainError {
    /// The bytes are no image that can be decoded.
    DecodeError,
    /// The image is not square, or its side is not `2^k + 1` with `k >= 1`.
    ShapeError,
    /// The grid is so large that its mesh may have more corners than a
    /// 32-bit index can count.
    MeshTooLarge,
}

/// What a height grid holds: its side and its samples, row by row.
pub struct HeightGrid {
    pub side: nat,
    pub samples: Seq<u8>,
}

/// A grid is valid when its side is valid and it holds one sample for each
/// vertex.
pub open spec fn valid_grid(grid: HeightGrid) -> bool {
    &&& valid_side(grid.side)
    &&& grid.side <= u32::MAX
    &&& grid.samples.len() == grid.side * grid.side
    &&& grid.samples.len() <= usize::MAX
}

/// A square grid of 8-bit height samples with a valid side.
#[derive(Debug)]
pub struct Heightfield {
    side: u32,
    samples: Vec<u8>,
}

impl View for Heightfield {
    type V = HeightGrid;

    closed spec fn view(&self) -> HeightGrid {
        HeightGrid { side: self.side as nat, samples: self.samples@ }
    }
}

/// The terrain heights of a grid: every sample multiplied by the height
/// scale.
pub open spec fn scaled(samples: Seq<u8>, height_scale: u32) -> Seq<u64> {
    Seq::new(samples.len(), |i: int| (samples[i] * height_scale) as u64)
}

/// The mesh of a grid: the corner indices of the triangles that are emitted
/// for its scaled heights and the tolerance.
pub open spec fn mesh_of(grid: HeightGrid, height_scale: u32, max_error: u64) -> Seq<usize> {
    extracted(error_map(scaled(grid.samples, height_scale), grid.side), grid.side, max_error)
}

impl Heightfield {
    /// Every height grid has a valid side and one sample for each vertex.
    #[verifier::type_invariant]
    spec fn well_formed(self) -> bool {
        valid_side(self.side as nat) && self.samples@.len() == self.side * self.side
    }

    /// Makes a height grid of `width * height` samples given row by row.
    /// The grid is refused where it is not square, where its side is not
    /// `2^k + 1` with `k >= 1`, and where the number of samples is not that
    /// of its vertices.
    pub fn from_samples(width: u32, height: u32, samples: Vec<u8>) -> (r: Result<
        Heightfield,
        TerrainError,
    >)
        ensures
            r is Ok <==> width == height && valid_side(width as nat) && samples@.len() == width
                * width,
            r matches Ok(field) ==> field@.side == width && field@.samples == samples@
                && valid_grid(field@),
            r matches Err(e) ==> e == TerrainError::ShapeError,
    {
        if width != height {
            return Err(TerrainError::ShapeError);
        }
        if side_rank(width).is_none() {
            return Err(TerrainError::ShapeError);
        }
        assert(width * width <= 0xffff_ffff * 0xffff_ffff) by (nonlinear_arith)
            requires
                width <= 0xffff_ffff,
        ;
        let square: u64 = width as u64 * width as u64;
        if samples.len() as u64 != square {
            return Err(TerrainError::ShapeError);
        }
        Ok(Heightfield { side: width, samples })
    }

    /// The side of the grid.
    pub fn side(&self) -> (n: u32)
        ensures
            n == self@.side,
            valid_grid(self@),
    {
        proof {
            use_type_invariant(self);
        }
        let count = self.samples.len();
        self.side
    }

    /// The samples of the grid, row by row.
    pub fn samples(&self) -> (s: &Vec<u8>)
        ensures
            s@ == self@.samples,
            valid_grid(self@),
    {
        proof {
            use_type_invariant(self);
        }
        let count = self.samples.len();
        &self.samples
    }

    /// The sample at `row` and `col`.
    pub fn sample(&self, row: u32, col: u32) -> (v: u8)
        requires
            row < self@.side,
            col < self@.side,
        ensures
            v == self@.samples[row * self@.side + col],
    {
        proof {
            use_type_invariant(self);
        }
        let count = self.samples.len();
        let i = flat_index(self.side, col, row);
        self.samples[i]
    }

    /// The terrain heights: every sample multiplied by `height_scale`.
    pub fn scale_heights(&self, height_scale: u32) -> (terrain: Vec<u64>)
        ensures
            terrain@ == scaled(self@.samples, height_scale),
            heights_bounded(terrain@),
    {
        let mut terrain: Vec<u64> = Vec::new();
        let mut count: usize = 0;
        while count < self.samples.len()
            invariant
                count <= self.samples.len(),
                terrain.len() == count,
                forall|i: int|
                    0 <= i < count ==> #[trigger] terrain[i] == self.samples[i] * height_scale,
            decreases self.samples.len() - count,
        {
            let value: u8 = self.samples[count];
            assert(value * height_scale <= 255 * 0xffff_ffff) by (nonlinear_arith)
                requires
                    value <= 255,
                    height_scale <= 0xffff_ffff,
            ;
            terrain.push(value as u64 * height_scale as u64);
            count = count + 1;
        }
        proof {
            assert(terrain@ =~= scaled(self@.samples, height_scale));
            assert forall|i: int| 0 <= i < terrain@.len() implies #[trigger] terrain@[i]
                <= MAX_HEIGHT by {
                let value = self.samples[i];
                assert(value * height_scale <= 255 * 0xffff_ffff) by (nonlinear_arith)
                    requires
                        value <= 255,
                        height_scale <= 0xffff_ffff,
                ;
            }
        }
        terrain
    }

    /// The mesh of the grid: its heights are scaled, their error map is
    /// built, and the triangles are cut for the tolerance. The result holds
    /// three flat corner indices for each triangle.
    pub fn mesh_indices(&self, height_scale: u32, max_error: u64) -> (indices: Vec<usize>)
        ensures
            indices@ == mesh_of(self@, height_scale, max_error),
    {
        proof {
            use_type_invariant(self);
        }
        let terrain = self.scale_heights(height_scale);
        let errors = generate_error_map(&terrain, self.side, self.side - 1);
        extract_triangles(&errors, self.side, max_error)
    }
}

/// A decoded image of the `image` crate.
#[verifier::external_type_specification]
#[verifier::external_body]
pub struct ExDynamicImage(image::DynamicImage);

/// The error of the `image` crate.
#[verifier::external_type_specification]
#[verifier::external_body]
pub struct ExImageError(image::ImageError);

/// The image that `image::load_from_memory` decodes from `bytes`, or `None`
/// where it returns an error.
pub uninterp spec fn decoded(bytes: Seq<u8>) -> Option<image::DynamicImage>;

/// The image that `image::DynamicImage::grayscale` makes of `img`.
pub uninterp spec fn grayscale_of(img: image::DynamicImage) -> image::DynamicImage;

/// The width and the height of `img`, as `dimensions` reports them.
pub uninterp spec fn image_size(img: image::DynamicImage) -> (nat, nat);

/// The first channel of every pixel of `img` as `get_pixel` reports it, row
/// by row.
pub uninterp spec fn image_levels(img: image::DynamicImage) -> Seq<u8>;

/// Calls `image::load_from_memory`, which guesses the format from the first
/// bytes and decodes the image. The contract only gives the outcome its
/// name: the same bytes decode to the same image, or fail.
#[verifier::external_body]
fn load_image(bytes: &[u8]) -> (r: Result<image::DynamicImage, image::ImageError>)
    ensures
        r matches Ok(img) ==> decoded(bytes@) == Some(img),
        r is Err ==> decoded(bytes@) is None,
{
    image::load_from_memory(bytes)
}

/// Calls `image::DynamicImage::grayscale`. The contract names the result
/// and says that it has the size of `img`: the crate makes the gray image
/// with the dimensions of its source.
#[verifier::external_body]
fn to_grayscale(img: &image::DynamicImage) -> (gray: image::DynamicImage)
    ensures
        gray == grayscale_of(*img),
        image_size(gray) == image_size(*img),
{
    img.grayscale()
}

/// Calls `dimensions` of `image::GenericImageView` on a decoded image, which
/// gives its width and its height.
#[verifier::external_body]
fn dimensions(img: &image::DynamicImage) -> (size: (u32, u32))
    ensures
        size.0 == image_size(*img).0,
        size.1 == image_size(*img).1,
{
    image::GenericImageView::dimensions(img)
}

/// Calls `get_pixel` of `image::GenericImageView` on a decoded image, which
/// panics outside the image, and takes the first channel of the pixel.
#[verifier::external_body]
fn level_at(img: &image::DynamicImage, x: u32, y: u32) -> (level: u8)
    requires
        x < image_size(*img).0,
        y < image_size(*img).1,
    ensures
        level == image_levels(*img)[y * image_size(*img).0 + x],
{
    image::GenericImageView::get_pixel(img, x, y).0[0]
}

/// The height grid that is read from a decoded image: the first channel of
/// every pixel of its gray version, where the image has a valid shape.
pub open spec fn grid_of_image(img: image::DynamicImage) -> Result<HeightGrid, TerrainError> {
    let gray = grayscale_of(img);
    let width = image_size(gray).0;
    let height = image_size(gray).1;
    if width == height && valid_side(width) {
        Ok(
            HeightGrid {
                side: width,
                samples: Seq::new(width * width, |i: int| image_levels(gray)[i]),
            },
        )
    } else {
        Err(TerrainError::ShapeError)
    }
}

/// The height grid that is read from the bytes of an encoded image.
pub open spec fn grid_of_bytes(bytes: Seq<u8>) -> Result<HeightGrid, TerrainError> {
    match decoded(bytes) {
        Some(img) => grid_of_image(img),
        None => Err(TerrainError::DecodeError),
    }
}

/// `r` is the grid `expected`, or the error `expected`.
pub open spec fn reads_as(
    r: Result<Heightfield, TerrainError>,
    expected: Result<HeightGrid, TerrainError>,
) -> bool {
    match r {
        Ok(field) => expected == Ok::<HeightGrid, TerrainError>(field@) && valid_grid(field@),
        Err(e) => expected == Err::<HeightGrid, TerrainError>(e),
    }
}

/// Reads the height grid of a decoded image: the image is turned to gray,
/// its shape is checked, and the first channel of every pixel becomes a
/// sample.
pub fn heightfield_from_image(img: &image::DynamicImage) -> (r: Result<Heightfield, TerrainError>)
    ensures
        reads_as(r, grid_of_image(*img)),
{
    let gray = to_grayscale(img);
    let (width, height) = dimensions(&gray);
    if width != height || side_rank(width).is_none() {
        return Err(TerrainError::ShapeError);
    }
    let mut samples: Vec<u8> = Vec::new();
    let mut y: u32 = 0;
    while y < height
        invariant
            y <= height,
            width == height,
            width == image_size(gray).0,
            height == image_size(gray).1,
            samples.len() == y * width,
            forall|i: int| 0 <= i < samples.len() ==> samples[i] == image_levels(gray)[i],
        decreases height - y,
    {
        let mut x: u32 = 0;
        while x < width
            invariant
                x <= width,
                y < height,
                width == image_size(gray).0,
                height == image_size(gray).1,
                samples.len() == y * width + x,
                forall|i: int| 0 <= i < samples.len() ==> samples[i] == image_levels(gray)[i],
            decreases width - x,
        {
            let level = level_at(&gray, x, y);
            samples.push(level);
            x = x + 1;
        }
        assert((y + 1) * width == y * width + width) by (nonlinear_arith);
        y = y + 1;
    }
    proof {
        assert(samples@ =~= Seq::new(
            (width as nat) * (width as nat),
            |i: int| image_levels(gray)[i],
        ));
    }
    Ok(Heightfield { side: width, samples })
}

/// Decodes an image and reads its height grid. The bytes that the `image`
/// crate cannot decode give `DecodeError`, an image that is not square or
/// whose side is not `2^k + 1` gives `ShapeError`.
pub fn generate_heightmap_data(bytes: &[u8]) -> (r: Result<Heightfield, TerrainError>)
    ensures
        reads_as(r, grid_of_bytes(bytes@)),
{
    match load_image(bytes) {
        Ok(img) => heightfield_from_image(&img),
        Err(_) => Err(TerrainError::DecodeError),
    }
}

/// Decodes an image and gives its height in pixels.
pub fn get_mapsize(bytes: &[u8]) -> (r: Result<u32, TerrainError>)
    ensures
        match r {
            Ok(height) => decoded(bytes@) matches Some(img) && height == image_size(img).1,
            Err(e) => e == TerrainError::DecodeError && decoded(bytes@) is None,
        },
{
    match load_image(bytes) {
        Ok(img) => {
            let (_, height) = dimensions(&img);
            Ok(height)
        },
        Err(_) => Err(TerrainError::DecodeError),
    }
}

/// Decodes an image, reads its height grid and cuts the mesh of the grid
/// for a height scale and a tolerance. The result holds three flat corner
/// indices for each triangle.
pub fn generate_vertices(bytes: &[u8], height_scale: u32, max_error: u64) -> (r: Result<
    Vec<usize>,
    TerrainError,
>)
    ensures
        match r {
            Ok(indices) => grid_of_bytes(bytes@) matches Ok(grid) && indices@ == mesh_of(
                grid,
                height_scale,
                max_error,
            ),
            Err(e) => grid_of_bytes(bytes@) == Err::<HeightGrid, TerrainError>(e),
        },
{
    match generate_heightmap_data(bytes) {
        Ok(field) => Ok(field.mesh_indices(height_scale, max_error)),
        Err(e) => Err(e),
    }
}

} // verus!
