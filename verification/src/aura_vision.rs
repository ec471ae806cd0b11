//! The vision encoder's fixed contract: what goes into the inference model
//! and what is made of what comes out.
//!
//! An image is reduced to its edge structure before it reaches the model:
//! decoded, turned to grey, resized to 64 x 64, passed through a Sobel
//! gradient filter and scaled to the range from -1.0 to 1.0. The raw imagery
//! is discarded. The model's output, 384 numbers, is brought to unit length so
//! that a dot product of two embeddings is their cosine similarity.
//!
//! Running the model is the caller's part; the library checks what is fed to
//! it and finishes what it returns.

use crate::errors::CoreError;
use crate::fixed::floor_div;
use crate::vector::{integer_root, l2_normalize, normalized, root};
use vstd::prelude::*;

verus! {

/// The side of the square image that the model takes.
pub const IMAGE_SIDE: usize = 64;

/// The number of pixels that the model takes.
pub const PIXEL_COUNT: usize = 4096;

/// The number of components of an embedding.
pub const EMBEDDING_DIM: usize = 384;

/// The error of the `image` crate; the library only passes it on.
#[verifier::external_type_specification]
#[verifier::external_body]
pub struct ExImageError(image::ImageError);

/// `image::load_from_memory`, then `DynamicImage::grayscale`,
/// `resize_exact(64, 64, Triangle)` and `into_luma8().into_raw()`: decoding
/// fails or gives an image, and the resized grey image always has 64 x 64
/// pixels of one byte each, row by row. Which grey values come out is the
/// decoder's matter (it may pick its routines by the processor it runs on)
/// and is not stated.
#[verifier::external_body]
fn decode_gray(img_bytes: &Vec<u8>) -> (decoded: Result<Vec<u8>, image::ImageError>)
    ensures
        decoded is Ok ==> decoded->Ok_0@.len() == 4096,
{
    let img = image::load_from_memory(img_bytes)?;
    let gray = img.grayscale().resize_exact(64, 64, image::imageops::FilterType::Triangle);
    Ok(gray.into_luma8().into_raw())
}

/// The grey value at column `x`, row `y` of an image that is `width` wide.
pub open spec fn pixel_at(gray: Seq<u8>, width: int, x: int, y: int) -> int {
    gray[y * width + x] as int
}

/// The horizontal Sobel gradient at `(x, y)`: the kernel
/// `[[-1, 0, 1], [-2, 0, 2], [-1, 0, 1]]`.
pub open spec fn gradient_x(gray: Seq<u8>, width: int, x: int, y: int) -> int {
    (pixel_at(gray, width, x + 1, y - 1) - pixel_at(gray, width, x - 1, y - 1)) + 2 * (pixel_at(
        gray,
        width,
        x + 1,
        y,
    ) - pixel_at(gray, width, x - 1, y)) + (pixel_at(gray, width, x + 1, y + 1) - pixel_at(
        gray,
        width,
        x - 1,
        y + 1,
    ))
}

/// The vertical Sobel gradient at `(x, y)`: the kernel
/// `[[-1, -2, -1], [0, 0, 0], [1, 2, 1]]`.
pub open spec fn gradient_y(gray: Seq<u8>, width: int, x: int, y: int) -> int {
    (pixel_at(gray, width, x - 1, y + 1) - pixel_at(gray, width, x - 1, y - 1)) + 2 * (pixel_at(
        gray,
        width,
        x,
        y + 1,
    ) - pixel_at(gray, width, x, y - 1)) + (pixel_at(gray, width, x + 1, y + 1) - pixel_at(
        gray,
        width,
        x + 1,
        y - 1,
    ))
}

/// The gradient magnitude `sqrt(gx^2 + gy^2)`, rounded down and limited to
/// 255.
pub open spec fn magnitude(gx: int, gy: int) -> int {
    let r = root((gx * gx + gy * gy) as nat);
    if r > 255 {
        255
    } else {
        r as int
    }
}

/// The edge strength at `(x, y)`: the gradient magnitude inside the image, 0
/// on its outermost ring.
pub open spec fn edge_at(gray: Seq<u8>, width: int, height: int, x: int, y: int) -> u8 {
    if 1 <= x < width - 1 && 1 <= y < height - 1 {
        magnitude(gradient_x(gray, width, x, y), gradient_y(gray, width, x, y)) as u8
    } else {
        0
    }
}

/// The edge image of a grey image, row by row.
pub open spec fn edges_of(gray: Seq<u8>, width: int, height: int) -> Seq<u8> {
    Seq::new(
        gray.len(),
        |i: int| edge_at(gray, width, height, i % width, i / width),
    )
}

/// A byte scaled to the range from -1.0 to 1.0: `(p / 255 - 0.5) / 0.5`,
/// rounded down.
pub open spec fn scaled_pixel(p: u8) -> int {
    ((2 * p - 255) * 0x4000_0000) / 255
}

/// Every byte of `edges` scaled to the range from -1.0 to 1.0.
pub open spec fn scaled_pixels(edges: Seq<u8>) -> Seq<i32> {
    Seq::new(edges.len(), |i: int| scaled_pixel(edges[i]) as i32)
}

/// What preprocessing makes of a grey 64 x 64 image.
pub open spec fn preprocessed(gray: Seq<u8>) -> Seq<i32> {
    scaled_pixels(edges_of(gray, 64, 64))
}

/// A cell inside the image has its index inside the buffer.
proof fn lemma_cell_index(width: int, height: int, x: int, y: int)
    requires
        0 <= x < width,
        0 <= y < height,
    ensures
        0 <= y * width + x < width * height,
{
    assert(y * width + x < width * height) by (nonlinear_arith)
        requires
            0 <= x < width,
            0 <= y < height,
    ;
    assert(0 <= y * width) by (nonlinear_arith)
        requires
            0 <= y,
            0 <= width,
    ;
}

/// The gradient magnitude of one pixel.
fn magnitude_of(gx: i32, gy: i32) -> (m: u8)
    requires
        -1020 <= gx <= 1020,
        -1020 <= gy <= 1020,
    ensures
        m == magnitude(gx as int, gy as int),
{
    assert(0 <= gx * gx <= 1020 * 1020) by (nonlinear_arith)
        requires
            -1020 <= gx <= 1020,
    ;
    assert(0 <= gy * gy <= 1020 * 1020) by (nonlinear_arith)
        requires
            -1020 <= gy <= 1020,
    ;
    let t: u128 = (gx * gx + gy * gy) as u128;
    let r = integer_root(t);
    if r > 255 {
        255
    } else {
        r as u8
    }
}

/// The edge strength of the pixel at `(x, y)`.
fn edge_pixel(gray: &Vec<u8>, width: usize, height: usize, x: usize, y: usize) -> (e: u8)
    requires
        gray@.len() == width * height,
        x < width,
        y < height,
    ensures
        e == edge_at(gray@, width as int, height as int, x as int, y as int),
{
    if x < 1 || y < 1 || width - x < 2 || height - y < 2 {
        return 0;
    }
    let n = gray.len();
    proof {
        lemma_cell_index(width as int, height as int, x - 1, y - 1);
        lemma_cell_index(width as int, height as int, x as int, y - 1);
        lemma_cell_index(width as int, height as int, x + 1, y - 1);
        lemma_cell_index(width as int, height as int, x - 1, y as int);
        lemma_cell_index(width as int, height as int, x + 1, y as int);
        lemma_cell_index(width as int, height as int, x - 1, y + 1);
        lemma_cell_index(width as int, height as int, x as int, y + 1);
        lemma_cell_index(width as int, height as int, x + 1, y + 1);
        let w = width as int;
        let h = height as int;
        let yi = y as int;
        assert(0 <= (yi - 1) * w <= yi * w <= (yi + 1) * w <= w * h) by (nonlinear_arith)
            requires
                1 <= yi,
                yi + 1 < h,
                0 <= w,
        ;
        assert(w * h == n);
    }
    let up = (y - 1) * width;
    let mid = y * width;
    let down = (y + 1) * width;
    let a = gray[up + x - 1] as i32;
    let b = gray[up + x] as i32;
    let c = gray[up + x + 1] as i32;
    let d = gray[mid + x - 1] as i32;
    let f = gray[mid + x + 1] as i32;
    let g = gray[down + x - 1] as i32;
    let h = gray[down + x] as i32;
    let k = gray[down + x + 1] as i32;
    let gx = (c - a) + 2 * (f - d) + (k - g);
    let gy = (g - a) + 2 * (h - b) + (k - c);
    magnitude_of(gx, gy)
}

/// Scales one byte to the range from -1.0 to 1.0.
fn scale_pixel(p: u8) -> (s: i32)
    ensures
        s == scaled_pixel(p),
        -0x4000_0000 <= s <= 0x4000_0000,
{
    let x: i128 = (2 * (p as i128) - 255) * 0x4000_0000;
    let q = floor_div(x, 255);
    proof {
        let xi = x as int;
        assert(-0x4000_0000 <= xi / 255 <= 0x4000_0000) by (nonlinear_arith)
            requires
                -255 * 0x4000_0000 <= xi <= 255 * 0x4000_0000,
        ;
    }
    q as i32
}

/// The tensor shapes that a model file declares.
#[derive(Clone, Debug)]
pub struct ModelShapes {
    pub input: Vec<usize>,
    pub output: Vec<usize>,
}

/// The shapes of the inference model.
#[derive(Clone, Debug)]
pub struct AuraVisionEncoder {
    input_shape: Vec<usize>,
    output_dim: usize,
}

impl AuraVisionEncoder {
    /// The shape of the model's input tensor.
    pub closed spec fn shape(&self) -> Seq<usize> {
        self.input_shape@
    }

    /// The number of components of the model's output.
    pub closed spec fn dim(&self) -> nat {
        self.output_dim as nat
    }

    /// The invariant of an encoder: the one supported model shape.
    pub open spec fn wf(&self) -> bool {
        &&& self.shape() == seq![1usize, 1usize, 64usize, 64usize]
        &&& self.dim() == EMBEDDING_DIM
    }

    /// Accepts a model by the shapes that it declares: the input must be
    /// `(1, 1, 64, 64)` and the output `(1, 384)`. Any other model is refused
    /// as an invalid model file.
    pub fn load(input_shape: &Vec<usize>, output_shape: &Vec<usize>) -> (loaded: Result<
        Self,
        CoreError,
    >)
        ensures
            loaded is Ok <==> (input_shape@ == seq![1usize, 1usize, 64usize, 64usize]
                && output_shape@ == seq![1usize, 384usize]),
            loaded is Err ==> loaded->Err_0 == CoreError::InvalidModelFile,
            loaded is Ok ==> loaded->Ok_0.wf(),
    {
        let input_ok = input_shape.len() == 4 && input_shape[0] == 1 && input_shape[1] == 1
            && input_shape[2] == IMAGE_SIDE && input_shape[3] == IMAGE_SIDE;
        let output_ok = output_shape.len() == 2 && output_shape[0] == 1 && output_shape[1]
            == EMBEDDING_DIM;
        proof {
            if input_ok {
                assert(input_shape@ =~= seq![1usize, 1usize, 64usize, 64usize]);
            }
            if output_ok {
                assert(output_shape@ =~= seq![1usize, 384usize]);
            }
            if input_shape@ == seq![1usize, 1usize, 64usize, 64usize] {
                assert(input_shape@.len() == 4);
                assert(input_shape@[0] == 1 && input_shape@[1] == 1 && input_shape@[2] == 64
                    && input_shape@[3] == 64);
            }
            if output_shape@ == seq![1usize, 384usize] {
                assert(output_shape@.len() == 2);
                assert(output_shape@[0] == 1 && output_shape@[1] == 384);
            }
        }
        if !input_ok || !output_ok {
            return Err(CoreError::InvalidModelFile);
        }
        let mut shape: Vec<usize> = Vec::new();
        shape.push(1);
        shape.push(1);
        shape.push(IMAGE_SIDE);
        shape.push(IMAGE_SIDE);
        let encoder = AuraVisionEncoder { input_shape: shape, output_dim: EMBEDDING_DIM };
        proof {
            assert(encoder.shape() =~= seq![1usize, 1usize, 64usize, 64usize]);
        }
        Ok(encoder)
    }

    /// Checks the number of pixels that are about to be fed to the model.
    pub fn check_pixel_count(&self, pixel_count: usize) -> (checked: Result<(), CoreError>)
        ensures
            checked is Ok <==> pixel_count == PIXEL_COUNT,
            checked is Err ==> checked->Err_0 == CoreError::BadInputSize,
    {
        if pixel_count != PIXEL_COUNT {
            Err(CoreError::BadInputSize)
        } else {
            Ok(())
        }
    }

    /// Finishes an inference: checks the number of pixels that were fed to
    /// the model and the number of values that it returned, and brings the
    /// output to unit length.
    pub fn forward_from_pixels(&self, pixel_count: usize, model_output: Vec<i32>) -> (embedding:
        Result<Vec<i32>, CoreError>)
        requires
            self.wf(),
        ensures
            embedding is Ok <==> (pixel_count == PIXEL_COUNT && model_output@.len()
                == EMBEDDING_DIM),
            pixel_count != PIXEL_COUNT ==> embedding is Err && embedding->Err_0
                == CoreError::BadInputSize,
            pixel_count == PIXEL_COUNT && model_output@.len() != EMBEDDING_DIM ==> embedding is Err
                && embedding->Err_0 == CoreError::DimensionMismatch,
            embedding is Ok ==> embedding->Ok_0@ == normalized(model_output@),
    {
        if pixel_count != PIXEL_COUNT {
            return Err(CoreError::BadInputSize);
        }
        if model_output.len() != self.output_dim {
            return Err(CoreError::DimensionMismatch);
        }
        let mut vector = model_output;
        l2_normalize(&mut vector);
        Ok(vector)
    }

    /// The Sobel edge image of a grey image of `width` by `height` pixels,
    /// given row by row: at each pixel the magnitude of the grey-value
    /// gradient, limited to 255. The outermost ring of pixels is 0.
    pub fn sobel_edge_detect(gray: &Vec<u8>, width: usize, height: usize) -> (edges: Vec<u8>)
        requires
            gray@.len() == width * height,
        ensures
            edges@ == edges_of(gray@, width as int, height as int),
    {
        let n = gray.len();
        let mut edges: Vec<u8> = Vec::new();
        let mut i: usize = 0;
        while i < n
            invariant
                n == gray@.len(),
                n == width * height,
                i <= n,
                edges@.len() == i,
                forall|j: int|
                    0 <= j < i ==> edges@[j] == edge_at(
                        gray@,
                        width as int,
                        height as int,
                        j % (width as int),
                        j / (width as int),
                    ),
            decreases n - i,
        {
            proof {
                if width == 0 {
                    assert(width * height == 0) by (nonlinear_arith)
                        requires
                            width == 0,
                    ;
                }
            }
            let x = i % width;
            let y = i / width;
            proof {
                let w = width as int;
                let h = height as int;
                let ii = i as int;
                assert(ii / w < h) by (nonlinear_arith)
                    requires
                        0 <= ii < w * h,
                        w > 0,
                ;
            }
            let e = edge_pixel(gray, width, height, x, y);
            edges.push(e);
            i = i + 1;
        }
        proof {
            assert(edges@ =~= edges_of(gray@, width as int, height as int));
        }
        edges
    }

    /// Scales the bytes of an edge image to the range from -1.0 to 1.0.
    pub fn scale_pixels(edges: &Vec<u8>) -> (pixels: Vec<i32>)
        ensures
            pixels@ == scaled_pixels(edges@),
    {
        let mut pixels: Vec<i32> = Vec::new();
        let mut i: usize = 0;
        while i < edges.len()
            invariant
                i <= edges@.len(),
                pixels@.len() == i,
                forall|j: int| 0 <= j < i ==> pixels@[j] == scaled_pixel(edges@[j]) as i32,
            decreases edges@.len() - i,
        {
            pixels.push(scale_pixel(edges[i]));
            i = i + 1;
        }
        proof {
            assert(pixels@ =~= scaled_pixels(edges@));
        }
        pixels
    }

    /// Preprocesses a grey 64 x 64 image, given row by row: edge detection,
    /// then scaling. A buffer of another size is refused.
    pub fn preprocess_gray(gray: &Vec<u8>) -> (pixels: Result<Vec<i32>, CoreError>)
        ensures
            pixels is Ok <==> gray@.len() == PIXEL_COUNT,
            pixels is Err ==> pixels->Err_0 == CoreError::BadInputSize,
            pixels is Ok ==> pixels->Ok_0@ == preprocessed(gray@),
    {
        if gray.len() != PIXEL_COUNT {
            return Err(CoreError::BadInputSize);
        }
        let edges = Self::sobel_edge_detect(gray, IMAGE_SIDE, IMAGE_SIDE);
        Ok(Self::scale_pixels(&edges))
    }

    /// Preprocesses an encoded image (PNG, JPEG): decoding, grey conversion
    /// and resizing to 64 x 64, then edge detection and scaling as in
    /// [`AuraVisionEncoder::preprocess_gray`]. Bytes that cannot be decoded
    /// are refused.
    pub fn preprocess_from_bytes(img_bytes: &Vec<u8>) -> (pixels: Result<Vec<i32>, CoreError>)
        ensures
            pixels is Err ==> pixels->Err_0 == CoreError::InvalidImage,
            pixels is Ok ==> exists|gray: Seq<u8>|
                gray.len() == PIXEL_COUNT && pixels->Ok_0@ == #[trigger] preprocessed(gray),
    {
        match decode_gray(img_bytes) {
            Err(_) => Err(CoreError::InvalidImage),
            Ok(gray) => {
                let edges = Self::sobel_edge_detect(&gray, IMAGE_SIDE, IMAGE_SIDE);
                let pixels = Self::scale_pixels(&edges);
                proof {
                    assert(pixels@ == preprocessed(gray@));
                }
                Ok(pixels)
            },
        }
    }

    /// Brings a vector to unit length in place.
    pub fn l2_normalize(vec: &mut Vec<i32>)
        ensures
            final(vec)@ == normalized(old(vec)@),
    {
        l2_normalize(vec);
    }

    /// The shape of the model's input tensor.
    pub fn input_shape(&self) -> (shape: &Vec<usize>)
        ensures
            shape@ == self.shape(),
    {
        &self.input_shape
    }

    /// The number of components of an embedding.
    pub fn output_dim(&self) -> (dim: usize)
        ensures
            dim == self.dim(),
    {
        self.output_dim
    }
}

} // verus!
