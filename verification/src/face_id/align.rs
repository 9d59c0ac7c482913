//! Alignment: the crop of a face that the embedding model takes.

use vstd::prelude::*;
use vstd::string::*;
use crate::face_id::embedding::single_epsilon;
use crate::model;
use crate::model::{region, region_center, FaceGeometry, FaceView, LandmarkKind, Point};
use crate::single::Single;
use crate::text;
use crate::text::decimal;

verus! {

pub const SFACE_WIDTH: usize = 112;

pub const SFACE_HEIGHT: usize = 112;

/// The values of one colour.
pub const SFACE_PLANE: usize = 12544;

/// A place in an image, from the top left.
#[derive(Clone, Copy, Debug, PartialEq, Eq, Structural)]
pub struct Pixel {
    pub x: Single,
    pub y: Single,
}

/// The colour of a pixel.
#[derive(Clone, Copy, Debug, PartialEq, Eq, Structural)]
pub struct Color {
    pub red: Single,
    pub green: Single,
    pub blue: Single,
}

/// A place given in ten-thousandths.
#[verifier::allow_in_spec]
pub fn template_pixel(x: u64, y: u64) -> Pixel
    returns
        (Pixel { x: Single::ratio(x, 10000), y: Single::ratio(y, 10000) }),
{
    Pixel { x: Single::ratio(x, 10000), y: Single::ratio(y, 10000) }
}

/// Where the model expects the eyes, the nose and the corners of the mouth.
pub open spec fn spec_sface_template() -> Seq<Pixel> {
    seq![
        template_pixel(382946, 516963),
        template_pixel(735318, 515014),
        template_pixel(560252, 717366),
        template_pixel(415493, 923655),
        template_pixel(707299, 922041),
    ]
}

pub fn sface_template() -> (r: [Pixel; 5])
    ensures
        r@ == spec_sface_template(),
{
    let r = [
        template_pixel(382946, 516963),
        template_pixel(735318, 515014),
        template_pixel(560252, 717366),
        template_pixel(415493, 923655),
        template_pixel(707299, 922041),
    ];
    assert(r@ =~= spec_sface_template());
    r
}

/// A point of an image with the origin at the lower left.
#[verifier::allow_in_spec]
pub fn image_pixel(point: Point, width: Single, height: Single) -> Pixel
    returns
        (Pixel {
            x: point.x.to_single() * width,
            y: (Single::integer(1) - point.y.to_single()) * height,
        }),
{
    Pixel {
        x: point.x.to_single() * width,
        y: (Single::integer(1) - point.y.to_single()) * height,
    }
}

/// The leftmost one of the first `k` points, the first one where several are.
pub open spec fn leftmost(points: Seq<Point>, k: int) -> Point
    decreases k,
{
    if k <= 1 {
        points[0]
    } else {
        let best = leftmost(points, k - 1);
        if points[k - 1].x.precedes(best.x) {
            points[k - 1]
        } else {
            best
        }
    }
}

/// The rightmost one of the first `k` points, the last one where several are.
pub open spec fn rightmost(points: Seq<Point>, k: int) -> Point
    decreases k,
{
    if k <= 1 {
        points[0]
    } else {
        let best = rightmost(points, k - 1);
        if points[k - 1].x.precedes(best.x) {
            best
        } else {
            points[k - 1]
        }
    }
}

fn extremes(points: &Vec<Point>) -> (r: (Point, Point))
    requires
        points.len() > 0,
    ensures
        r.0 == leftmost(points@, points.len() as int),
        r.1 == rightmost(points@, points.len() as int),
{
    let mut left = points[0];
    let mut right = points[0];
    let mut i: usize = 1;
    while i < points.len()
        invariant
            1 <= i <= points.len(),
            left == leftmost(points@, i as int),
            right == rightmost(points@, i as int),
        decreases points.len() - i,
    {
        if points[i].x.precedes(left.x) {
            left = points[i];
        }
        if !points[i].x.precedes(right.x) {
            right = points[i];
        }
        i += 1;
    }
    (left, right)
}

/// The eyes from left to right, the nose and the corners of the mouth, in pixels.
pub open spec fn spec_five_landmarks(face: FaceView, width: Single, height: Single) -> Result<
    Seq<Pixel>,
    Seq<char>,
> {
    match (
        model::spec_region_center(face.landmarks, LandmarkKind::LeftEye),
        model::spec_region_center(face.landmarks, LandmarkKind::RightEye),
        model::spec_nose(face.landmarks),
        model::spec_region(face.landmarks, LandmarkKind::OuterLips),
    ) {
        (None, _, _, _) => Err("left eye landmark is unavailable"@),
        (_, None, _, _) => Err("right eye landmark is unavailable"@),
        (_, _, None, _) => Err("nose landmark is unavailable"@),
        (_, _, _, None) => Err("outer-lip landmarks are unavailable"@),
        (Some(left), Some(right), Some(nose), Some(lips)) => if lips.len() == 0 {
            Err("outer-lip landmarks are empty"@)
        } else {
            let swapped = right.x.precedes(left.x);
            Ok(
                seq![
                    image_pixel(
                        if swapped {
                            right
                        } else {
                            left
                        },
                        width,
                        height,
                    ),
                    image_pixel(
                        if swapped {
                            left
                        } else {
                            right
                        },
                        width,
                        height,
                    ),
                    image_pixel(nose, width, height),
                    image_pixel(leftmost(lips, lips.len() as int), width, height),
                    image_pixel(rightmost(lips, lips.len() as int), width, height),
                ],
            )
        },
    }
}

pub fn five_landmarks(face: &FaceGeometry, width: Single, height: Single) -> (r: Result<
    [Pixel; 5],
    String,
>)
    ensures
        match r {
            Ok(pixels) => spec_five_landmarks(face@, width, height) == Ok::<Seq<Pixel>, Seq<char>>(
                pixels@,
            ),
            Err(message) => spec_five_landmarks(face@, width, height) == Err::<
                Seq<Pixel>,
                Seq<char>,
            >(message@),
        },
{
    let left = match region_center(&face.landmarks, LandmarkKind::LeftEye) {
        Some(left) => left,
        None => {
            return Err("left eye landmark is unavailable".to_owned());
        },
    };
    let right = match region_center(&face.landmarks, LandmarkKind::RightEye) {
        Some(right) => right,
        None => {
            return Err("right eye landmark is unavailable".to_owned());
        },
    };
    let nose = match model::nose(&face.landmarks) {
        Some(nose) => nose,
        None => {
            return Err("nose landmark is unavailable".to_owned());
        },
    };
    let lips = match region(&face.landmarks, LandmarkKind::OuterLips) {
        Some(lips) => lips,
        None => {
            return Err("outer-lip landmarks are unavailable".to_owned());
        },
    };
    if lips.len() == 0 {
        return Err("outer-lip landmarks are empty".to_owned());
    }
    let (left_mouth, right_mouth) = extremes(lips);
    let swapped = right.x.precedes(left.x);
    let first = if swapped {
        right
    } else {
        left
    };
    let second = if swapped {
        left
    } else {
        right
    };
    let pixels = [
        image_pixel(first, width, height),
        image_pixel(second, width, height),
        image_pixel(nose, width, height),
        image_pixel(left_mouth, width, height),
        image_pixel(right_mouth, width, height),
    ];
    assert(pixels@ =~= spec_five_landmarks(face@, width, height)->Ok_0);
    Ok(pixels)
}

/// The sum of the first `k` places.
pub open spec fn pixel_sum(pixels: Seq<Pixel>, k: int) -> Pixel
    decreases k,
{
    if k <= 0 {
        Pixel { x: Single::integer(0), y: Single::integer(0) }
    } else {
        let sum = pixel_sum(pixels, k - 1);
        Pixel { x: sum.x + pixels[k - 1].x, y: sum.y + pixels[k - 1].y }
    }
}

/// The mean of five places.
pub open spec fn spec_mean_point(pixels: Seq<Pixel>) -> Pixel {
    let sum = pixel_sum(pixels, 5);
    Pixel { x: sum.x / Single::integer(5), y: sum.y / Single::integer(5) }
}

pub fn mean_point(pixels: &[Pixel; 5]) -> (r: Pixel)
    ensures
        r == spec_mean_point(pixels@),
{
    let mut sum = Pixel { x: Single::integer(0), y: Single::integer(0) };
    let mut i: usize = 0;
    while i < 5
        invariant
            i <= 5,
            sum == pixel_sum(pixels@, i as int),
        decreases 5 - i,
    {
        sum = Pixel { x: sum.x + pixels[i].x, y: sum.y + pixels[i].y };
        i += 1;
    }
    Pixel { x: sum.x / Single::integer(5), y: sum.y / Single::integer(5) }
}

/// A rotation, a scale and a translation: `(x, y)` goes to `(a x - b y + tx, b x + a y + ty)`.
#[derive(Clone, Copy, Debug, PartialEq, Eq, Structural)]
pub struct SimilarityTransform {
    pub a: Single,
    pub b: Single,
    pub tx: Single,
    pub ty: Single,
}

impl SimilarityTransform {
    /// The place that goes to a place.
    #[verifier::allow_in_spec]
    pub fn inverse(self, x: Single, y: Single) -> Pixel
        returns
            (Pixel {
                x: (self.a * (x - self.tx) + self.b * (y - self.ty)) / (self.a * self.a + self.b
                    * self.b),
                y: (self.b.negated() * (x - self.tx) + self.a * (y - self.ty)) / (self.a * self.a
                    + self.b * self.b),
            }),
    {
        let x = x - self.tx;
        let y = y - self.ty;
        let determinant = self.a * self.a + self.b * self.b;
        Pixel {
            x: (self.a * x + self.b * y) / determinant,
            y: (self.b.negated() * x + self.a * y) / determinant,
        }
    }
}

/// The sums that a least-squares fit needs.
#[derive(Clone, Copy, Debug, PartialEq, Eq, Structural)]
pub struct Moments {
    pub denominator: Single,
    pub real: Single,
    pub imaginary: Single,
}

/// The sums over the first `k` pairs of places, each taken from its mean.
pub open spec fn moments(source: Seq<Pixel>, destination: Seq<Pixel>, k: int) -> Moments
    decreases k,
{
    if k <= 0 {
        Moments {
            denominator: Single::integer(0),
            real: Single::integer(0),
            imaginary: Single::integer(0),
        }
    } else {
        let sums = moments(source, destination, k - 1);
        let sx = source[k - 1].x - spec_mean_point(source).x;
        let sy = source[k - 1].y - spec_mean_point(source).y;
        let dx = destination[k - 1].x - spec_mean_point(destination).x;
        let dy = destination[k - 1].y - spec_mean_point(destination).y;
        Moments {
            denominator: sums.denominator + (sx * sx + sy * sy),
            real: sums.real + (sx * dx + sy * dy),
            imaginary: sums.imaginary + (sx * dy - sy * dx),
        }
    }
}

/// The transform that brings five places closest to five others: an error where the places are one,
/// or where they would be brought to one.
pub open spec fn spec_similarity_transform(source: Seq<Pixel>, destination: Seq<Pixel>) -> Result<
    SimilarityTransform,
    Seq<char>,
> {
    let sums = moments(source, destination, 5);
    let from = spec_mean_point(source);
    let to = spec_mean_point(destination);
    let a = sums.real / sums.denominator;
    let b = sums.imaginary / sums.denominator;
    if sums.denominator.at_most(single_epsilon()) {
        Err("face landmarks are degenerate"@)
    } else if (a * a + b * b).at_most(single_epsilon()) {
        Err("face alignment transform is degenerate"@)
    } else {
        Ok(
            SimilarityTransform {
                a,
                b,
                tx: to.x - a * from.x + b * from.y,
                ty: to.y - b * from.x - a * from.y,
            },
        )
    }
}

pub fn similarity_transform(source: &[Pixel; 5], destination: &[Pixel; 5]) -> (r: Result<
    SimilarityTransform,
    String,
>)
    ensures
        match r {
            Ok(transform) => spec_similarity_transform(source@, destination@) == Ok::<
                SimilarityTransform,
                Seq<char>,
            >(transform),
            Err(message) => spec_similarity_transform(source@, destination@) == Err::<
                SimilarityTransform,
                Seq<char>,
            >(message@),
        },
{
    let from = mean_point(source);
    let to = mean_point(destination);
    let mut sums = Moments {
        denominator: Single::integer(0),
        real: Single::integer(0),
        imaginary: Single::integer(0),
    };
    let mut i: usize = 0;
    while i < 5
        invariant
            i <= 5,
            from == spec_mean_point(source@),
            to == spec_mean_point(destination@),
            sums == moments(source@, destination@, i as int),
        decreases 5 - i,
    {
        let sx = source[i].x - from.x;
        let sy = source[i].y - from.y;
        let dx = destination[i].x - to.x;
        let dy = destination[i].y - to.y;
        sums =
        Moments {
            denominator: sums.denominator + (sx * sx + sy * sy),
            real: sums.real + (sx * dx + sy * dy),
            imaginary: sums.imaginary + (sx * dy - sy * dx),
        };
        i += 1;
    }
    if sums.denominator.at_most(single_epsilon()) {
        return Err("face landmarks are degenerate".to_owned());
    }
    let a = sums.real / sums.denominator;
    let b = sums.imaginary / sums.denominator;
    if (a * a + b * b).at_most(single_epsilon()) {
        return Err("face alignment transform is degenerate".to_owned());
    }
    Ok(
        SimilarityTransform {
            a,
            b,
            tx: to.x - a * from.x + b * from.y,
            ty: to.y - b * from.x - a * from.y,
        },
    )
}

/// An image of four bytes a pixel: blue, green, red and alpha.
pub open spec fn is_image(pixels: Seq<u8>, width: int, height: int, bytes_per_row: int) -> bool {
    &&& 0 < width
    &&& 0 < height
    &&& width * 4 <= bytes_per_row
    &&& bytes_per_row * height <= pixels.len()
}

/// The colour of the pixel in a column and a row.
pub open spec fn color_at(pixels: Seq<u8>, bytes_per_row: int, column: int, row: int) -> Color {
    let offset = row * bytes_per_row + column * 4;
    Color {
        red: Single::integer(pixels[offset + 2] as u64),
        green: Single::integer(pixels[offset + 1] as u64),
        blue: Single::integer(pixels[offset] as u64),
    }
}

fn read_color(
    pixels: &[u8],
    width: usize,
    height: usize,
    bytes_per_row: usize,
    column: usize,
    row: usize,
) -> (r: Color)
    requires
        is_image(pixels@, width as int, height as int, bytes_per_row as int),
        column < width,
        row < height,
    ensures
        r == color_at(pixels@, bytes_per_row as int, column as int, row as int),
{
    assert(row * bytes_per_row + column * 4 + 3 < pixels@.len()) by (nonlinear_arith)
        requires
            row < height,
            column < width,
            width * 4 <= bytes_per_row,
            bytes_per_row * height <= pixels@.len(),
    ;
    assert(row * bytes_per_row >= 0) by (nonlinear_arith);
    assert(pixels@.len() == pixels.len());
    let offset: usize = row * bytes_per_row + column * 4;
    Color {
        red: Single::integer(pixels[offset + 2] as u64),
        green: Single::integer(pixels[offset + 1] as u64),
        blue: Single::integer(pixels[offset] as u64),
    }
}

/// A value between two, a fraction of the way.
#[verifier::allow_in_spec]
pub fn blend(first: Single, second: Single, fraction: Single) -> Single
    returns
        first * (Single::integer(1) - fraction) + second * fraction,
{
    first * (Single::integer(1) - fraction) + second * fraction
}

/// A colour between two, a fraction of the way.
#[verifier::allow_in_spec]
pub fn blend_colors(first: Color, second: Color, fraction: Single) -> Color
    returns
        (Color {
            red: blend(first.red, second.red, fraction),
            green: blend(first.green, second.green, fraction),
            blue: blend(first.blue, second.blue, fraction),
        }),
{
    Color {
        red: blend(first.red, second.red, fraction),
        green: blend(first.green, second.green, fraction),
        blue: blend(first.blue, second.blue, fraction),
    }
}

/// The pixel that a coordinate is in, the last one at most.
pub open spec fn cell(coordinate: Single, size: int) -> int {
    let whole = coordinate.floor() as int;
    if whole < size {
        whole
    } else {
        size - 1
    }
}

/// The pixel after one, the last one at most.
pub open spec fn next_cell(cell: int, size: int) -> int {
    if cell + 1 < size {
        cell + 1
    } else {
        size - 1
    }
}

/// Whether a place is in an image.
pub open spec fn is_inside(x: Single, y: Single, width: int, height: int) -> bool {
    let zero = Single::integer(0);
    !x.less(zero) && !y.less(zero) && !Single::integer((width - 1) as u64).less(x)
        && !Single::integer((height - 1) as u64).less(y)
}

/// The colour at a place between pixels: black outside of the image.
pub open spec fn spec_sample_bgra(
    pixels: Seq<u8>,
    width: int,
    height: int,
    bytes_per_row: int,
    x: Single,
    y: Single,
) -> Color {
    let x0 = cell(x, width);
    let y0 = cell(y, height);
    let x1 = next_cell(x0, width);
    let y1 = next_cell(y0, height);
    let fx = x - Single::integer(x0 as u64);
    let fy = y - Single::integer(y0 as u64);
    if is_inside(x, y, width, height) {
        blend_colors(
            blend_colors(
                color_at(pixels, bytes_per_row, x0, y0),
                color_at(pixels, bytes_per_row, x1, y0),
                fx,
            ),
            blend_colors(
                color_at(pixels, bytes_per_row, x0, y1),
                color_at(pixels, bytes_per_row, x1, y1),
                fx,
            ),
            fy,
        )
    } else {
        Color { red: Single::integer(0), green: Single::integer(0), blue: Single::integer(0) }
    }
}

fn clamp_cell(coordinate: Single, size: usize) -> (r: usize)
    requires
        size > 0,
    ensures
        r == cell(coordinate, size as int),
        r < size,
{
    let whole: u64 = coordinate.floor();
    if whole < size as u64 {
        whole as usize
    } else {
        size - 1
    }
}

pub fn sample_bgra(
    pixels: &[u8],
    width: usize,
    height: usize,
    bytes_per_row: usize,
    x: Single,
    y: Single,
) -> (r: Color)
    requires
        is_image(pixels@, width as int, height as int, bytes_per_row as int),
    ensures
        r == spec_sample_bgra(
            pixels@,
            width as int,
            height as int,
            bytes_per_row as int,
            x,
            y,
        ),
{
    let zero = Single::integer(0);
    if x.less(zero) || y.less(zero) || Single::integer((width - 1) as u64).less(x)
        || Single::integer((height - 1) as u64).less(y) {
        return Color { red: zero, green: zero, blue: zero };
    }
    let x0: usize = clamp_cell(x, width);
    let y0: usize = clamp_cell(y, height);
    let x1: usize = if x0 < width - 1 {
        x0 + 1
    } else {
        width - 1
    };
    let y1: usize = if y0 < height - 1 {
        y0 + 1
    } else {
        height - 1
    };
    let fx = x - Single::integer(x0 as u64);
    let fy = y - Single::integer(y0 as u64);
    let top = blend_colors(
        read_color(pixels, width, height, bytes_per_row, x0, y0),
        read_color(pixels, width, height, bytes_per_row, x1, y0),
        fx,
    );
    let bottom = blend_colors(
        read_color(pixels, width, height, bytes_per_row, x0, y1),
        read_color(pixels, width, height, bytes_per_row, x1, y1),
        fx,
    );
    blend_colors(top, bottom, fy)
}

/// The place in the image of the middle of a pixel of the crop, less half a pixel.
#[verifier::allow_in_spec]
pub fn source_place(transform: SimilarityTransform, column: usize, row: usize) -> Pixel
    returns
        ({
            let half = Single::ratio(1, 2);
            let place = transform.inverse(
                Single::integer(column as u64) + half,
                Single::integer(row as u64) + half,
            );
            Pixel { x: place.x - half, y: place.y - half }
        }),
{
    let half = Single::ratio(1, 2);
    let place = transform.inverse(
        Single::integer(column as u64) + half,
        Single::integer(row as u64) + half,
    );
    Pixel { x: place.x - half, y: place.y - half }
}

/// The colour of a pixel of the crop.
pub open spec fn crop_color(
    pixels: Seq<u8>,
    width: int,
    height: int,
    bytes_per_row: int,
    transform: SimilarityTransform,
    index: int,
) -> Color {
    let place = source_place(
        transform,
        (index % SFACE_WIDTH as int) as usize,
        (index / SFACE_WIDTH as int) as usize,
    );
    spec_sample_bgra(pixels, width, height, bytes_per_row, place.x, place.y)
}

/// Checks that a tensor has the size that the model takes.
pub fn check_tensor(tensor: &Vec<Single>) -> (r: Result<(), String>)
    ensures
        if tensor.len() == 3 * SFACE_PLANE {
            r is Ok
        } else {
            r matches Err(message) && message@ == "invalid SFace input length: "@
                + text::spec_decimal(tensor.len() as nat)
        },
{
    if tensor.len() != 3 * SFACE_PLANE {
        return Err(
            "invalid SFace input length: ".to_owned().concat(
                decimal(tensor.len() as u64).as_str(),
            ),
        );
    }
    Ok(())
}

/// The crop: all red values, row by row, then all green ones, then all blue ones.
pub open spec fn spec_crop(
    pixels: Seq<u8>,
    width: int,
    height: int,
    bytes_per_row: int,
    transform: SimilarityTransform,
) -> Seq<Single> {
    let colors = Seq::new(
        SFACE_PLANE as nat,
        |i: int| crop_color(pixels, width, height, bytes_per_row, transform, i),
    );
    colors.map_values(|color: Color| color.red) + colors.map_values(|color: Color| color.green)
        + colors.map_values(|color: Color| color.blue)
}

fn crop(
    pixels: &[u8],
    width: usize,
    height: usize,
    bytes_per_row: usize,
    transform: SimilarityTransform,
) -> (r: Vec<Single>)
    requires
        is_image(pixels@, width as int, height as int, bytes_per_row as int),
    ensures
        r@ == spec_crop(pixels@, width as int, height as int, bytes_per_row as int, transform),
{
    let ghost colors = Seq::new(
        SFACE_PLANE as nat,
        |i: int|
            crop_color(
                pixels@,
                width as int,
                height as int,
                bytes_per_row as int,
                transform,
                i,
            ),
    );
    let mut red: Vec<Single> = Vec::new();
    let mut green: Vec<Single> = Vec::new();
    let mut blue: Vec<Single> = Vec::new();
    let mut i: usize = 0;
    while i < SFACE_PLANE
        invariant
            is_image(pixels@, width as int, height as int, bytes_per_row as int),
            colors == Seq::new(
                SFACE_PLANE as nat,
                |i: int|
                    crop_color(
                        pixels@,
                        width as int,
                        height as int,
                        bytes_per_row as int,
                        transform,
                        i,
                    ),
            ),
            i <= SFACE_PLANE,
            red.len() == i,
            green.len() == i,
            blue.len() == i,
            forall|k: int| 0 <= k < i ==> #[trigger] red[k] == colors[k].red,
            forall|k: int| 0 <= k < i ==> #[trigger] green[k] == colors[k].green,
            forall|k: int| 0 <= k < i ==> #[trigger] blue[k] == colors[k].blue,
        decreases SFACE_PLANE - i,
    {
        let place = source_place(transform, i % SFACE_WIDTH, i / SFACE_WIDTH);
        let color = sample_bgra(pixels, width, height, bytes_per_row, place.x, place.y);
        assert(colors[i as int] == color);
        red.push(color.red);
        green.push(color.green);
        blue.push(color.blue);
        i += 1;
    }
    red.append(&mut green);
    red.append(&mut blue);
    assert(red@ =~= spec_crop(
        pixels@,
        width as int,
        height as int,
        bytes_per_row as int,
        transform,
    ));
    red
}

/// The aligned crop of a face.
pub open spec fn spec_aligned_tensor(
    pixels: Seq<u8>,
    width: usize,
    height: usize,
    bytes_per_row: usize,
    face: FaceView,
) -> Result<Seq<Single>, Seq<char>> {
    if !is_image(pixels, width as int, height as int, bytes_per_row as int) {
        Err("invalid BGRA pixel buffer layout"@)
    } else {
        match spec_five_landmarks(
            face,
            Single::integer(width as u64),
            Single::integer(height as u64),
        ) {
            Err(message) => Err(message),
            Ok(source) => match spec_similarity_transform(source, spec_sface_template()) {
                Err(message) => Err(message),
                Ok(transform) => Ok(
                    spec_crop(
                        pixels,
                        width as int,
                        height as int,
                        bytes_per_row as int,
                        transform,
                    ),
                ),
            },
        }
    }
}

/// Creates the SFace RGB/NCHW tensor by aligning Vision's five landmark groups
/// against the standard 112x112 SFace template. `bgra` must be a top-left-origin
/// 32-bit BGRA image.
pub fn aligned_sface_tensor_bgra(
    bgra: &[u8],
    width: usize,
    height: usize,
    bytes_per_row: usize,
    face: &FaceGeometry,
) -> (r: Result<Vec<Single>, String>)
    ensures
        text::outcome(r) == spec_aligned_tensor(bgra@, width, height, bytes_per_row, face@),
        r matches Ok(tensor) ==> tensor.len() == 3 * SFACE_WIDTH * SFACE_HEIGHT,
{
    let valid = width != 0 && height != 0 && width <= bytes_per_row / 4 && bytes_per_row
        <= bgra.len() / height;
    proof {
        if width != 0 && height != 0 {
            vstd::arithmetic::div_mod::lemma_fundamental_div_mod(
                bgra@.len() as int,
                height as int,
            );
            let q = bgra@.len() as int / height as int;
            let rest = bgra@.len() as int % height as int;
            assert(bytes_per_row <= q <==> bytes_per_row * height <= bgra@.len())
                by (nonlinear_arith)
                requires
                    bgra@.len() == height * q + rest,
                    0 <= rest < height,
            ;
        }
        assert(valid == is_image(
            bgra@,
            width as int,
            height as int,
            bytes_per_row as int,
        ));
    }
    if !valid {
        return Err("invalid BGRA pixel buffer layout".to_owned());
    }
    let source = match five_landmarks(
        face,
        Single::integer(width as u64),
        Single::integer(height as u64),
    ) {
        Ok(source) => source,
        Err(message) => {
            return Err(message);
        },
    };
    let transform = match similarity_transform(&source, &sface_template()) {
        Ok(transform) => transform,
        Err(message) => {
            return Err(message);
        },
    };
    Ok(crop(bgra, width, height, bytes_per_row, transform))
}

} // verus!
