//! What an aligned crop shows of an image.

use vstd::prelude::*;
use crate::dyadic;
use crate::dyadic::is_dyadic;
use crate::face_id::align::{
    blend, blend_colors, color_at, crop_color, is_image, source_place, spec_crop, spec_sample_bgra,
    Color, SimilarityTransform,
};
use crate::single::Single;

verus! {

/// The byte of a channel of the pixel in a column and a row: blue, green, red, alpha.
pub open spec fn byte(pixels: Seq<u8>, bytes_per_row: int, column: int, row: int, channel: int) -> int {
    pixels[row * bytes_per_row + 4 * column + channel] as int
}

/// The mean of a channel of four neighbours, by sixteenths of the way from one to the next.
pub open spec fn mixed(
    pixels: Seq<u8>,
    bytes_per_row: int,
    column: int,
    row: int,
    i: int,
    j: int,
    channel: int,
) -> int {
    (16 - j) * ((16 - i) * byte(pixels, bytes_per_row, column, row, channel) + i * byte(
        pixels,
        bytes_per_row,
        column + 1,
        row,
        channel,
    )) + j * ((16 - i) * byte(pixels, bytes_per_row, column, row + 1, channel) + i * byte(
        pixels,
        bytes_per_row,
        column + 1,
        row + 1,
        channel,
    ))
}

/// A value between two bytes.
proof fn lemma_blend(first: Single, p: int, second: Single, q: int, e: nat, f: Single, i: int)
    requires
        is_dyadic(first, p, e),
        is_dyadic(second, q, e),
        e <= 4,
        0 <= p <= 4080,
        0 <= q <= 4080,
        is_dyadic(f, i, 4),
        0 <= i < 16,
    ensures
        is_dyadic(blend(first, second, f), (16 - i) * p + i * q, e + 4),
        0 <= (16 - i) * p + i * q,
        p <= 255 && q <= 255 ==> (16 - i) * p + i * q <= 4080,
{
    let one = Single::integer(1);
    vstd::arithmetic::power2::lemma2_to64();
    dyadic::lemma_integer(1);
    dyadic::lemma_finer(one, 1, 0, 4);
    dyadic::lemma_difference(one, 16, f, i, 4);
    assert(0 <= p * (16 - i) <= 65280 && 0 <= q * i <= 65280 && p * (16 - i) == (16 - i) * p && q
        * i == i * q) by (nonlinear_arith)
        requires
            0 <= p <= 4080,
            0 <= q <= 4080,
            0 <= i < 16,
    ;
    assert(p <= 255 && q <= 255 ==> (16 - i) * p + i * q <= 4080) by (nonlinear_arith)
        requires
            0 <= i < 16,
    ;
    dyadic::lemma_product(first, p, e, one - f, 16 - i, 4);
    dyadic::lemma_product(second, q, e, f, i, 4);
    dyadic::lemma_sum(first * (one - f), p * (16 - i), second * f, q * i, e + 4);
}

/// The colour of a pixel is that of its bytes.
proof fn lemma_color(pixels: Seq<u8>, bytes_per_row: int, column: int, row: int)
    ensures
        ({
            let color = color_at(pixels, bytes_per_row, column, row);
            &&& is_dyadic(color.red, byte(pixels, bytes_per_row, column, row, 2), 0)
            &&& is_dyadic(color.green, byte(pixels, bytes_per_row, column, row, 1), 0)
            &&& is_dyadic(color.blue, byte(pixels, bytes_per_row, column, row, 0), 0)
        }),
{
    let offset = row * bytes_per_row + column * 4;
    dyadic::lemma_integer(pixels[offset + 2] as u64);
    dyadic::lemma_integer(pixels[offset + 1] as u64);
    dyadic::lemma_integer(pixels[offset] as u64);
}

/// One channel between four pixels.
proof fn lemma_channel(
    c00: Single,
    p00: int,
    c10: Single,
    p10: int,
    c01: Single,
    p01: int,
    c11: Single,
    p11: int,
    fx: Single,
    i: int,
    fy: Single,
    j: int,
)
    requires
        is_dyadic(c00, p00, 0),
        is_dyadic(c10, p10, 0),
        is_dyadic(c01, p01, 0),
        is_dyadic(c11, p11, 0),
        0 <= p00 <= 255,
        0 <= p10 <= 255,
        0 <= p01 <= 255,
        0 <= p11 <= 255,
        is_dyadic(fx, i, 4),
        0 <= i < 16,
        is_dyadic(fy, j, 4),
        0 <= j < 16,
    ensures
        is_dyadic(
            blend(blend(c00, c10, fx), blend(c01, c11, fx), fy),
            (16 - j) * ((16 - i) * p00 + i * p10) + j * ((16 - i) * p01 + i * p11),
            8,
        ),
{
    lemma_blend(c00, p00, c10, p10, 0, fx, i);
    lemma_blend(c01, p01, c11, p11, 0, fx, i);
    lemma_blend(
        blend(c00, c10, fx),
        (16 - i) * p00 + i * p10,
        blend(c01, c11, fx),
        (16 - i) * p01 + i * p11,
        4,
        fy,
        j,
    );
}

/// Where a coordinate is among the pixels.
proof fn lemma_cell(x: Single, column: int, i: int, size: int)
    requires
        is_dyadic(x, 16 * column + i, 4),
        0 <= column < size <= 0x10_0000,
        0 <= i < 16,
        column == size - 1 ==> i == 0,
    ensures
        !x.less(Single::integer(0)),
        !Single::integer((size - 1) as u64).less(x),
        x.floor() == column,
        is_dyadic(x - Single::integer(column as u64), i, 4),
{
    vstd::arithmetic::power2::lemma2_to64();
    let zero = Single::integer(0);
    let last = Single::integer((size - 1) as u64);
    let whole = Single::integer(column as u64);
    dyadic::lemma_integer(0);
    dyadic::lemma_integer((size - 1) as u64);
    dyadic::lemma_integer(column as u64);
    dyadic::lemma_finer(zero, 0, 0, 4);
    dyadic::lemma_finer(last, size - 1, 0, 4);
    dyadic::lemma_finer(whole, column, 0, 4);
    dyadic::lemma_order(x, 16 * column + i, zero, 0, 4);
    dyadic::lemma_order(last, (size - 1) * 16, x, 16 * column + i, 4);
    dyadic::lemma_difference(x, 16 * column + i, whole, column * 16, 4);
    if x.negative() {
        x.lemma_order(x);
        vstd::arithmetic::power2::lemma_pow2_pos(145);
        assert(column == 0 && i == 0) by {
            let n = 16 * column + i;
            let u = dyadic::unit(4);
            assert(n == 0) by (nonlinear_arith)
                requires
                    n * u <= 0,
                    n >= 0,
                    u > 0,
            ;
        }
    } else {
        dyadic::lemma_floor(x, column, i, 4);
    }
}

/// Between pixels a channel is the mean of the four neighbours by how near each is: exactly so at
/// sixteenths of the way.
pub proof fn law_sample_is_bilinear(
    pixels: Seq<u8>,
    width: int,
    height: int,
    bytes_per_row: int,
    x: Single,
    y: Single,
    column: int,
    row: int,
    i: int,
    j: int,
)
    requires
        is_image(pixels, width, height, bytes_per_row),
        width <= 0x10_0000,
        height <= 0x10_0000,
        0 <= column < width,
        0 <= row < height,
        0 <= i < 16,
        0 <= j < 16,
        column == width - 1 ==> i == 0,
        row == height - 1 ==> j == 0,
        is_dyadic(x, 16 * column + i, 4),
        is_dyadic(y, 16 * row + j, 4),
    ensures
        ({
            let color = spec_sample_bgra(pixels, width, height, bytes_per_row, x, y);
            &&& is_dyadic(color.red, mixed(pixels, bytes_per_row, column, row, i, j, 2), 8)
            &&& is_dyadic(color.green, mixed(pixels, bytes_per_row, column, row, i, j, 1), 8)
            &&& is_dyadic(color.blue, mixed(pixels, bytes_per_row, column, row, i, j, 0), 8)
        }),
{
    lemma_cell(x, column, i, width);
    lemma_cell(y, row, j, height);
    let right = if column + 1 < width {
        column + 1
    } else {
        column
    };
    let below = if row + 1 < height {
        row + 1
    } else {
        row
    };
    let c00 = color_at(pixels, bytes_per_row, column, row);
    let c10 = color_at(pixels, bytes_per_row, right, row);
    let c01 = color_at(pixels, bytes_per_row, column, below);
    let c11 = color_at(pixels, bytes_per_row, right, below);
    lemma_color(pixels, bytes_per_row, column, row);
    lemma_color(pixels, bytes_per_row, right, row);
    lemma_color(pixels, bytes_per_row, column, below);
    lemma_color(pixels, bytes_per_row, right, below);
    let fx = x - Single::integer(column as u64);
    let fy = y - Single::integer(row as u64);
    let color = spec_sample_bgra(pixels, width, height, bytes_per_row, x, y);
    assert(color == blend_colors(blend_colors(c00, c10, fx), blend_colors(c01, c11, fx), fy));
    lemma_channel_mixed(pixels, bytes_per_row, column, row, right, below, i, j, 2);
    lemma_channel_mixed(pixels, bytes_per_row, column, row, right, below, i, j, 1);
    lemma_channel_mixed(pixels, bytes_per_row, column, row, right, below, i, j, 0);
    lemma_channel(
        c00.red,
        byte(pixels, bytes_per_row, column, row, 2),
        c10.red,
        byte(pixels, bytes_per_row, right, row, 2),
        c01.red,
        byte(pixels, bytes_per_row, column, below, 2),
        c11.red,
        byte(pixels, bytes_per_row, right, below, 2),
        fx,
        i,
        fy,
        j,
    );
    lemma_channel(
        c00.green,
        byte(pixels, bytes_per_row, column, row, 1),
        c10.green,
        byte(pixels, bytes_per_row, right, row, 1),
        c01.green,
        byte(pixels, bytes_per_row, column, below, 1),
        c11.green,
        byte(pixels, bytes_per_row, right, below, 1),
        fx,
        i,
        fy,
        j,
    );
    lemma_channel(
        c00.blue,
        byte(pixels, bytes_per_row, column, row, 0),
        c10.blue,
        byte(pixels, bytes_per_row, right, row, 0),
        c01.blue,
        byte(pixels, bytes_per_row, column, below, 0),
        c11.blue,
        byte(pixels, bytes_per_row, right, below, 0),
        fx,
        i,
        fy,
        j,
    );
}

/// A neighbour that is not there counts for nothing.
proof fn lemma_channel_mixed(
    pixels: Seq<u8>,
    bytes_per_row: int,
    column: int,
    row: int,
    right: int,
    below: int,
    i: int,
    j: int,
    channel: int,
)
    requires
        right == column + 1 || i == 0,
        below == row + 1 || j == 0,
    ensures
        mixed(pixels, bytes_per_row, column, row, i, j, channel) == (16 - j) * ((16 - i) * byte(
            pixels,
            bytes_per_row,
            column,
            row,
            channel,
        ) + i * byte(pixels, bytes_per_row, right, row, channel)) + j * ((16 - i) * byte(
            pixels,
            bytes_per_row,
            column,
            below,
            channel,
        ) + i * byte(pixels, bytes_per_row, right, below, channel)),
{
    let here = (16 - i) * byte(pixels, bytes_per_row, column, below, channel) + i * byte(
        pixels,
        bytes_per_row,
        right,
        below,
        channel,
    );
    let there = (16 - i) * byte(pixels, bytes_per_row, column, row + 1, channel) + i * byte(
        pixels,
        bytes_per_row,
        column + 1,
        row + 1,
        channel,
    );
    if i == 0 {
        lemma_none_of(i, byte(pixels, bytes_per_row, column + 1, row, channel));
        lemma_none_of(i, byte(pixels, bytes_per_row, right, row, channel));
        lemma_none_of(i, byte(pixels, bytes_per_row, column + 1, row + 1, channel));
        lemma_none_of(i, byte(pixels, bytes_per_row, right, below, channel));
    }
    if j == 0 {
        lemma_none_of(j, here);
        lemma_none_of(j, there);
    }
}

proof fn lemma_none_of(n: int, x: int)
    requires
        n == 0,
    ensures
        n * x == 0,
{
    assert(n * x == 0) by (nonlinear_arith)
        requires
            n == 0,
    ;
}

/// Outside of an image there is nothing but black.
pub proof fn law_outside_is_black(
    pixels: Seq<u8>,
    width: int,
    height: int,
    bytes_per_row: int,
    x: Single,
    y: Single,
)
    requires
        x.less(Single::integer(0)) || y.less(Single::integer(0)) || Single::integer(
            (width - 1) as u64,
        ).less(x) || Single::integer((height - 1) as u64).less(y),
    ensures
        spec_sample_bgra(pixels, width, height, bytes_per_row, x, y) == (Color {
            red: Single::integer(0),
            green: Single::integer(0),
            blue: Single::integer(0),
        }),
{
}

/// The crop shows in a row and a column what the image shows at the place that goes to the middle
/// of that pixel: the red values come first, row by row, then the green and the blue ones.
pub proof fn law_crop_by_row_and_column(
    pixels: Seq<u8>,
    width: int,
    height: int,
    bytes_per_row: int,
    transform: SimilarityTransform,
    column: int,
    row: int,
)
    requires
        0 <= column < 112,
        0 <= row < 112,
    ensures
        ({
            let half = Single::ratio(1, 2);
            let place = transform.inverse(
                Single::integer(column as u64) + half,
                Single::integer(row as u64) + half,
            );
            let color = spec_sample_bgra(
                pixels,
                width,
                height,
                bytes_per_row,
                place.x - half,
                place.y - half,
            );
            let tensor = spec_crop(pixels, width, height, bytes_per_row, transform);
            &&& tensor.len() == 3 * 112 * 112
            &&& tensor[row * 112 + column] == color.red
            &&& tensor[112 * 112 + row * 112 + column] == color.green
            &&& tensor[2 * 112 * 112 + row * 112 + column] == color.blue
        }),
{
    let index = row * 112 + column;
    assert(index % 112 == column && index / 112 == row);
    let tensor = spec_crop(pixels, width, height, bytes_per_row, transform);
    let color = crop_color(pixels, width, height, bytes_per_row, transform, index);
    assert(tensor[index] == color.red);
    assert(tensor[12544 + index] == color.green);
    assert(tensor[25088 + index] == color.blue);
}

/// A transform that turns by quarters of a circle and shifts by whole pixels: it takes a place to
/// `(a * x - b * y + tx, b * x + a * y + ty)`.
pub open spec fn is_quarter_turn(
    transform: SimilarityTransform,
    a: int,
    b: int,
    tx: int,
    ty: int,
) -> bool {
    &&& (a == 0 && (b == 1 || b == -1)) || (b == 0 && (a == 1 || a == -1))
    &&& -0x10_0000 <= tx <= 0x10_0000
    &&& -0x10_0000 <= ty <= 0x10_0000
    &&& is_dyadic(transform.a, a, 0)
    &&& is_dyadic(transform.b, b, 0)
    &&& is_dyadic(transform.tx, tx, 0)
    &&& is_dyadic(transform.ty, ty, 0)
}

/// The middle of a pixel of the crop, less the shift.
proof fn lemma_unshifted(n: int, shift: Single, t: int)
    requires
        0 <= n < 112,
        -0x10_0000 <= t <= 0x10_0000,
        is_dyadic(shift, t, 0),
    ensures
        is_dyadic(
            Single::integer(n as u64) + Single::ratio(1, 2) - shift,
            2 * n + 1 - 2 * t,
            1,
        ),
{
    vstd::arithmetic::power2::lemma2_to64();
    let whole = Single::integer(n as u64);
    let half = Single::ratio(1, 2);
    dyadic::lemma_integer(n as u64);
    dyadic::lemma_half();
    dyadic::lemma_finer(whole, n, 0, 1);
    dyadic::lemma_sum(whole, n * 2, half, 1, 1);
    dyadic::lemma_finer(shift, t, 0, 1);
    dyadic::lemma_difference(whole + half, n * 2 + 1, shift, t * 2, 1);
}

/// Two products and their sum.
proof fn lemma_turned(a: Single, p: int, x: Single, m: int, b: Single, q: int, y: Single, n: int)
    requires
        is_dyadic(a, p, 0),
        is_dyadic(b, q, 0),
        is_dyadic(x, m, 1),
        is_dyadic(y, n, 1),
        -1 <= p <= 1,
        -1 <= q <= 1,
        -0x30_0000 <= m <= 0x30_0000,
        -0x30_0000 <= n <= 0x30_0000,
    ensures
        is_dyadic(a * x + b * y, p * m + q * n, 1),
        -0x60_0000 <= p * m + q * n <= 0x60_0000,
{
    assert(-0x30_0000 <= p * m <= 0x30_0000 && -0x30_0000 <= q * n <= 0x30_0000)
        by (nonlinear_arith)
        requires
            -1 <= p <= 1,
            -1 <= q <= 1,
            -0x30_0000 <= m <= 0x30_0000,
            -0x30_0000 <= n <= 0x30_0000,
    ;
    dyadic::lemma_product(a, p, 0, x, m, 1);
    dyadic::lemma_product(b, q, 0, y, n, 1);
    dyadic::lemma_sum(a * x, p * m, b * y, q * n, 1);
}

/// Where a pixel of the crop comes from, in halves of a pixel.
proof fn lemma_source(
    transform: SimilarityTransform,
    a: int,
    b: int,
    tx: int,
    ty: int,
    column: int,
    row: int,
)
    requires
        is_quarter_turn(transform, a, b, tx, ty),
        0 <= column < 112,
        0 <= row < 112,
    ensures
        ({
            let m = 2 * column + 1 - 2 * tx;
            let n = 2 * row + 1 - 2 * ty;
            let place = source_place(transform, column as usize, row as usize);
            &&& is_dyadic(place.x, a * m + b * n - 1, 1)
            &&& is_dyadic(place.y, -b * m + a * n - 1, 1)
        }),
{
    let half = Single::ratio(1, 2);
    let m = 2 * column + 1 - 2 * tx;
    let n = 2 * row + 1 - 2 * ty;
    let x = Single::integer(column as u64) + half - transform.tx;
    let y = Single::integer(row as u64) + half - transform.ty;
    lemma_unshifted(column, transform.tx, tx);
    lemma_unshifted(row, transform.ty, ty);
    dyadic::lemma_half();
    dyadic::lemma_opposite(transform.b, b, 0);
    lemma_turned(transform.a, a, x, m, transform.b, b, y, n);
    lemma_turned(transform.b.negated(), -b, x, m, transform.a, a, y, n);
    let determinant = transform.a * transform.a + transform.b * transform.b;
    dyadic::lemma_product(transform.a, a, 0, transform.a, a, 0);
    dyadic::lemma_product(transform.b, b, 0, transform.b, b, 0);
    assert(a * a + b * b == 1) by (nonlinear_arith)
        requires
            (a == 0 && (b == 1 || b == -1)) || (b == 0 && (a == 1 || a == -1)),
    ;
    dyadic::lemma_sum(transform.a * transform.a, a * a, transform.b * transform.b, b * b, 0);
    let across = transform.a * x + transform.b * y;
    let down = transform.b.negated() * x + transform.a * y;
    dyadic::lemma_over_one(across, a * m + b * n, 1, determinant);
    dyadic::lemma_over_one(down, -b * m + a * n, 1, determinant);
    dyadic::lemma_difference(across / determinant, a * m + b * n, half, 1, 1);
    dyadic::lemma_difference(down / determinant, -b * m + a * n, half, 1, 1);
}

/// The crop shows the pixels of the image where the transform takes them: turned by quarters of a
/// circle and shifted by whole pixels, the pixel of the image in column `x` and row `y` comes out
/// unchanged in the pixel of the crop whose middle its middle goes to, each colour in its plane.
pub proof fn law_crop_carries_pixels(
    pixels: Seq<u8>,
    width: int,
    height: int,
    bytes_per_row: int,
    transform: SimilarityTransform,
    a: int,
    b: int,
    tx: int,
    ty: int,
    x: int,
    y: int,
    column: int,
    row: int,
)
    requires
        is_image(pixels, width, height, bytes_per_row),
        width <= 0x10_0000,
        height <= 0x10_0000,
        is_quarter_turn(transform, a, b, tx, ty),
        0 <= x < width,
        0 <= y < height,
        0 <= column < 112,
        0 <= row < 112,
        2 * column + 1 == a * (2 * x + 1) - b * (2 * y + 1) + 2 * tx,
        2 * row + 1 == b * (2 * x + 1) + a * (2 * y + 1) + 2 * ty,
    ensures
        ({
            let tensor = spec_crop(pixels, width, height, bytes_per_row, transform);
            let place = row * 112 + column;
            &&& is_dyadic(tensor[place], byte(pixels, bytes_per_row, x, y, 2), 0)
            &&& is_dyadic(tensor[12544 + place], byte(pixels, bytes_per_row, x, y, 1), 0)
            &&& is_dyadic(tensor[25088 + place], byte(pixels, bytes_per_row, x, y, 0), 0)
        }),
{
    law_crop_by_row_and_column(pixels, width, height, bytes_per_row, transform, column, row);
    lemma_source(transform, a, b, tx, ty, column, row);
    let place = source_place(transform, column as usize, row as usize);
    let m = 2 * column + 1 - 2 * tx;
    let n = 2 * row + 1 - 2 * ty;
    let (p, q) = (2 * x + 1, 2 * y + 1);
    assert(a * m + b * n == p && -b * m + a * n == q) by (nonlinear_arith)
        requires
            (a == 0 && (b == 1 || b == -1)) || (b == 0 && (a == 1 || a == -1)),
            m == a * p - b * q,
            n == b * p + a * q,
    ;
    vstd::arithmetic::power2::lemma2_to64();
    dyadic::lemma_finer(place.x, 2 * x, 1, 3);
    dyadic::lemma_finer(place.y, 2 * y, 1, 3);
    law_sample_is_bilinear(
        pixels,
        width,
        height,
        bytes_per_row,
        place.x,
        place.y,
        x,
        y,
        0,
        0,
    );
    let color = spec_sample_bgra(pixels, width, height, bytes_per_row, place.x, place.y);
    lemma_whole_byte(color.red, byte(pixels, bytes_per_row, x, y, 2));
    lemma_whole_byte(color.green, byte(pixels, bytes_per_row, x, y, 1));
    lemma_whole_byte(color.blue, byte(pixels, bytes_per_row, x, y, 0));
}

/// A number of whole units.
proof fn lemma_whole_byte(x: Single, n: int)
    requires
        is_dyadic(x, 16 * (16 * n), 8),
    ensures
        is_dyadic(x, n, 0),
{
    vstd::arithmetic::power2::lemma2_to64();
    vstd::arithmetic::power2::lemma_pow2_adds(8, 141);
    let u = dyadic::unit(8);
    assert(16 * (16 * n) * u == n * (256 * u)) by (nonlinear_arith);
}

} // verus!
