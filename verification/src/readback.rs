//! The layout of the GPU work for one group of frames: how the output texture is laid out in
//! the buffer it is read back through, how many workgroups cover the image, and how the luma
//! bytes are picked out of the read back data.
use vstd::prelude::*;

use crate::pattern::Pattern;

verus! {

/// Each output texel takes 4 bytes; only the first one holds the luma value.
pub const OUTPUT_BYTES_PER_PIXEL: u32 = 4;

/// Number of cells along each side of a compute workgroup.  Matches the shader's
/// `@workgroup_size`.
pub const WORKGROUP_SIZE: u32 = 16;

/// `a` divided by `b`, rounded up.
pub open spec fn div_ceil(a: int, b: int) -> int {
    (a + b - 1) / b
}

/// The smallest multiple of `m` that is at least `x`.
pub open spec fn round_up(x: int, m: int) -> int {
    div_ceil(x, m) * m
}

/// How the read back buffer is laid out: rows of `bytes_per_row` bytes, `height` rows per
/// frame, the frames of a group one after another, `buffer_size` bytes in all.
pub struct ReadbackLayout {
    pub bytes_per_row: u32,
    pub buffer_size: u32,
}

/// Computes the read back buffer layout for a `width` by `height` image and
/// `frame_group_size` frames, with rows padded to a multiple of `row_alignment` bytes.
/// `None` when a size along the way (the row's bytes, the padded row, a frame's rows for the
/// whole group, the whole buffer) does not fit in a `u32`.
pub fn readback_layout(width: u32, height: u32, frame_group_size: u32, row_alignment: u32) -> (res:
    Option<ReadbackLayout>)
    requires
        row_alignment > 0,
    ensures
        ({
            let bpr = round_up(width * OUTPUT_BYTES_PER_PIXEL, row_alignment as int);
            let size = frame_group_size * bpr * height;
            match res {
                Some(layout) => layout.bytes_per_row == bpr && layout.buffer_size == size,
                None => width * OUTPUT_BYTES_PER_PIXEL > u32::MAX || bpr > u32::MAX
                    || frame_group_size * bpr > u32::MAX || size > u32::MAX,
            }
        }),
{
    let row_bytes = match width.checked_mul(OUTPUT_BYTES_PER_PIXEL) {
        Some(v) => v,
        None => {
            return None;
        },
    };
    let rem = row_bytes % row_alignment;
    let bytes_per_row = if rem == 0 {
        row_bytes
    } else {
        match row_bytes.checked_add(row_alignment - rem) {
            Some(v) => v,
            None => {
                proof {
                    lemma_round_up(row_bytes as int, row_alignment as int);
                }
                return None;
            },
        }
    };
    proof {
        lemma_round_up(row_bytes as int, row_alignment as int);
    }
    let per_frame = match frame_group_size.checked_mul(bytes_per_row) {
        Some(v) => v,
        None => {
            return None;
        },
    };
    match per_frame.checked_mul(height) {
        Some(buffer_size) => Some(ReadbackLayout { bytes_per_row, buffer_size }),
        None => None,
    }
}

/// What `round_up` computes, in terms of the remainder.
proof fn lemma_round_up(x: int, m: int)
    requires
        x >= 0,
        m > 0,
    ensures
        x % m == 0 ==> round_up(x, m) == x,
        x % m != 0 ==> round_up(x, m) == x + (m - x % m),
{
    vstd::arithmetic::div_mod::lemma_fundamental_div_mod(x, m);
    vstd::arithmetic::div_mod::lemma_mod_pos_bound(x, m);
    let q = x / m;
    let r = x % m;
    assert(m * q == q * m) by (nonlinear_arith);
    assert((q + 1) * m == q * m + m) by (nonlinear_arith);
    if r == 0 {
        assert((x + m - 1) / m == q) by {
            vstd::arithmetic::div_mod::lemma_fundamental_div_mod_converse(x + m - 1, m, q, m - 1);
        }
    } else {
        assert((x + m - 1) / m == q + 1) by {
            vstd::arithmetic::div_mod::lemma_fundamental_div_mod_converse(
                x + m - 1,
                m,
                q + 1,
                r - 1,
            );
        }
    }
}

/// `a / b` rounded up equals the quotient plus one when there is a remainder, and covers `a`
/// with as few multiples of `b` as possible.
pub proof fn lemma_div_ceil(a: int, b: int)
    requires
        a >= 0,
        b > 0,
    ensures
        div_ceil(a, b) == a / b + if a % b != 0 {
            1int
        } else {
            0int
        },
        div_ceil(a, b) * b >= a,
        (div_ceil(a, b) - 1) * b < a || a == 0,
        div_ceil(a, b) >= 0,
{
    lemma_round_up(a, b);
    vstd::arithmetic::div_mod::lemma_fundamental_div_mod(a, b);
    vstd::arithmetic::div_mod::lemma_mod_pos_bound(a, b);
    let q = a / b;
    assert(b * q == q * b) by (nonlinear_arith);
    assert((q + 1) * b == q * b + b) by (nonlinear_arith);
    assert((q - 1) * b == q * b - b) by (nonlinear_arith);
    vstd::arithmetic::div_mod::lemma_div_pos_is_pos(a, b);
    assert(round_up(a, b) == div_ceil(a, b) * b);
    if a % b == 0 {
        assert(div_ceil(a, b) * b == q * b) by (nonlinear_arith)
            requires
                div_ceil(a, b) * b == a,
                a == q * b,
                b > 0,
        ;
        assert(div_ceil(a, b) == q) by (nonlinear_arith)
            requires
                div_ceil(a, b) * b == q * b,
                b > 0,
        ;
    } else {
        assert(div_ceil(a, b) * b == (q + 1) * b) by (nonlinear_arith)
            requires
                div_ceil(a, b) * b == a + (b - a % b),
                a == q * b + a % b,
                (q + 1) * b == q * b + b,
        ;
        assert(div_ceil(a, b) == q + 1) by (nonlinear_arith)
            requires
                div_ceil(a, b) * b == (q + 1) * b,
                b > 0,
        ;
    }
}

/// Rows are padded to the smallest multiple of the alignment that holds their bytes.
pub proof fn lemma_row_padding(row_bytes: int, alignment: int)
    requires
        row_bytes >= 0,
        alignment > 0,
    ensures
        round_up(row_bytes, alignment) % alignment == 0,
        row_bytes <= round_up(row_bytes, alignment) < row_bytes + alignment,
{
    lemma_div_ceil(row_bytes, alignment);
    lemma_round_up(row_bytes, alignment);
    vstd::arithmetic::div_mod::lemma_mod_pos_bound(row_bytes, alignment);
    vstd::arithmetic::div_mod::lemma_mod_multiples_basic(div_ceil(row_bytes, alignment), alignment);
}

/// The workgroups of a dispatch cover every pixel of the image: the cells cover the image,
/// the workgroups cover the cells, and neither has a column or row entirely outside.
pub proof fn lemma_dispatch_covers_image(extent: int, cell: int)
    requires
        extent >= 0,
        cell > 0,
    ensures
        div_ceil(extent, cell) * cell >= extent,
        extent == 0 || (div_ceil(extent, cell) - 1) * cell < extent,
        div_ceil(div_ceil(extent, cell), WORKGROUP_SIZE as int) * WORKGROUP_SIZE >= div_ceil(
            extent,
            cell,
        ),
{
    lemma_div_ceil(extent, cell);
    lemma_div_ceil(div_ceil(extent, cell), WORKGROUP_SIZE as int);
}

/// `a / b` rounded up, for `b > 0`.
pub fn u32_div_ceil(a: u32, b: u32) -> (res: u32)
    requires
        b > 0,
    ensures
        res == div_ceil(a as int, b as int),
{
    proof {
        lemma_div_ceil(a as int, b as int);
    }
    let q = a / b;
    if a % b != 0 {
        assert(q < u32::MAX) by {
            vstd::arithmetic::div_mod::lemma_div_basics(a as int);
            vstd::arithmetic::div_mod::lemma_div_basics(b as int);
            if b > 1 && a > 0 {
                vstd::arithmetic::div_mod::lemma_div_is_strictly_smaller(a as int, b as int);
            }
        }
        q + 1
    } else {
        q
    }
}

/// How the compute pass covers the image: the cells along each side (a cell is the pattern's
/// cell scaled by the output pixel size), and the workgroups along each side.
pub struct DispatchSize {
    pub cell_cols: u32,
    pub cell_rows: u32,
    pub groups_x: u32,
    pub groups_y: u32,
}

/// The cells and workgroups that cover a `width` by `height` image for `pattern`, with output
/// pixels of `output_pixel_size` image pixels.  `None` when the output pixel size is zero or a
/// cell's side in image pixels does not fit in a `u32`.
pub fn dispatch_size(width: u32, height: u32, output_pixel_size: u32, pattern: Pattern) -> (res:
    Option<DispatchSize>)
    ensures
        ({
            let cell_w = output_pixel_size * pattern.spec_width();
            let cell_h = output_pixel_size * pattern.spec_height();
            match res {
                Some(d) => {
                    &&& output_pixel_size > 0
                    &&& cell_w <= u32::MAX
                    &&& cell_h <= u32::MAX
                    &&& d.cell_cols == div_ceil(width as int, cell_w)
                    &&& d.cell_rows == div_ceil(height as int, cell_h)
                    &&& d.groups_x == div_ceil(d.cell_cols as int, WORKGROUP_SIZE as int)
                    &&& d.groups_y == div_ceil(d.cell_rows as int, WORKGROUP_SIZE as int)
                },
                None => output_pixel_size == 0 || cell_w > u32::MAX || cell_h > u32::MAX,
            }
        }),
{
    let cell_w = match output_pixel_size.checked_mul(pattern.width()) {
        Some(v) => v,
        None => {
            return None;
        },
    };
    if output_pixel_size == 0 {
        return None;
    }
    let cell_h = match output_pixel_size.checked_mul(pattern.height()) {
        Some(v) => v,
        None => {
            return None;
        },
    };
    assert(cell_w > 0 && cell_h > 0) by (nonlinear_arith)
        requires
            cell_w == output_pixel_size * pattern.spec_width(),
            cell_h == output_pixel_size * pattern.spec_height(),
            output_pixel_size > 0,
            pattern.spec_width() >= 1,
            pattern.spec_height() >= 1,
    ;
    let cell_cols = u32_div_ceil(width, cell_w);
    let cell_rows = u32_div_ceil(height, cell_h);
    Some(
        DispatchSize {
            cell_cols,
            cell_rows,
            groups_x: u32_div_ceil(cell_cols, WORKGROUP_SIZE),
            groups_y: u32_div_ceil(cell_rows, WORKGROUP_SIZE),
        },
    )
}

/// Where the luma byte of pixel `(x, y)` of frame `i` of a group lies in the read back
/// buffer: frames of `height` rows of `bytes_per_row` bytes follow each other, and each pixel
/// takes `OUTPUT_BYTES_PER_PIXEL` bytes.
pub open spec fn luma_offset(bytes_per_row: int, height: int, i: int, y: int, x: int) -> int {
    i * bytes_per_row * height + y * bytes_per_row + x * OUTPUT_BYTES_PER_PIXEL
}

/// Position of pixel `(x, y)` in a tightly packed image `width` pixels wide.
pub open spec fn pixel_index(width: int, y: int, x: int) -> int {
    y * width + x
}

/// Pixel offsets inside the buffer: every pixel of every frame lies before the end of the
/// group's data.
proof fn lemma_luma_offset_bound(bpr: int, h: int, w: int, g: int, i: int, y: int, x: int)
    requires
        0 <= i < g,
        0 <= y < h,
        0 <= x < w,
        w * OUTPUT_BYTES_PER_PIXEL <= bpr,
    ensures
        0 <= luma_offset(bpr, h, i, y, x) < g * bpr * h,
        i * bpr * h + y * bpr <= luma_offset(bpr, h, i, y, x),
{
    assert(x * 4 < bpr) by (nonlinear_arith)
        requires
            0 <= x < w,
            w * 4 <= bpr,
    ;
    assert(i * bpr * h + y * bpr + bpr <= i * bpr * h + h * bpr) by (nonlinear_arith)
        requires
            0 <= y < h,
            bpr >= 0,
    ;
    assert(i * bpr * h + h * bpr <= g * bpr * h) by (nonlinear_arith)
        requires
            0 <= i < g,
            bpr >= 0,
            h >= 0,
    ;
    assert(0 <= i * bpr * h + y * bpr) by (nonlinear_arith)
        requires
            0 <= i,
            0 <= y,
            bpr >= 0,
            h >= 0,
    ;
}

/// Positions of earlier pixels in a packed image come first.
proof fn lemma_pixel_index_order(w: int, y1: int, x1: int, y2: int, x2: int)
    requires
        0 <= x1 < w,
        0 <= x2 < w,
        0 <= y1,
        0 <= y2,
        y1 < y2 || (y1 == y2 && x1 < x2),
    ensures
        0 <= pixel_index(w, y1, x1) < pixel_index(w, y2, x2),
{
    assert(0 <= pixel_index(w, y1, x1) < pixel_index(w, y2, x2)) by (nonlinear_arith)
        requires
            0 <= x1 < w,
            0 <= x2 < w,
            0 <= y1,
            0 <= y2,
            y1 < y2 || (y1 == y2 && x1 < x2),
    ;
}

/// Picks the luma values out of the read back buffer: for each of the `frame_group_size`
/// frames, a `width` by `height` image with one byte per pixel, rows one after another.
pub fn extract_luma(
    readback: &[u8],
    width: u32,
    height: u32,
    bytes_per_row: u32,
    frame_group_size: u32,
) -> (res: Vec<Vec<u8>>)
    requires
        width * OUTPUT_BYTES_PER_PIXEL <= bytes_per_row,
        frame_group_size * bytes_per_row <= u32::MAX,
        frame_group_size * bytes_per_row * height <= u32::MAX,
        frame_group_size * bytes_per_row * height <= readback@.len(),
    ensures
        res@.len() == frame_group_size,
        forall|i: int| 0 <= i < frame_group_size ==> #[trigger] res@[i]@.len() == width * height,
        forall|i: int, y: int, x: int|
            0 <= i < frame_group_size && 0 <= y < height && 0 <= x < width ==> #[trigger] res@[i]@[pixel_index(
                width as int,
                y,
                x,
            )] == readback@[luma_offset(bytes_per_row as int, height as int, i, y, x)],
        forall|i: int, y: int, x: int|
            0 <= i < frame_group_size && 0 <= y < height && 0 <= x < width ==> #[trigger] res@[i]@[y
                * width + x] == readback@[i * bytes_per_row * height + y * bytes_per_row + 4 * x],
{
    let ghost g = frame_group_size as int;
    let ghost bpr = bytes_per_row as int;
    let ghost h = height as int;
    let ghost w = width as int;
    let mut output_images: Vec<Vec<u8>> = Vec::new();
    let mut image_idx: u32 = 0;
    while image_idx < frame_group_size
        invariant
            g == frame_group_size,
            bpr == bytes_per_row,
            h == height,
            w == width,
            w * OUTPUT_BYTES_PER_PIXEL <= bpr,
            g * bpr <= u32::MAX,
            g * bpr * h <= u32::MAX,
            g * bpr * h <= readback@.len(),
            image_idx <= g,
            output_images@.len() == image_idx,
            forall|i: int| 0 <= i < image_idx ==> #[trigger] output_images@[i]@.len() == w * h,
            forall|i: int, y: int, x: int|
                0 <= i < image_idx && 0 <= y < h && 0 <= x < w ==> #[trigger] output_images@[i]@[pixel_index(
                    w,
                    y,
                    x,
                )] == readback@[luma_offset(bpr, h, i, y, x)],
        decreases g - image_idx,
    {
        assert(image_idx * bpr <= g * bpr) by (nonlinear_arith)
            requires
                image_idx < g,
                bpr >= 0,
        ;
        assert(image_idx * bpr * h <= g * bpr * h) by (nonlinear_arith)
            requires
                image_idx < g,
                bpr >= 0,
                h >= 0,
        ;
        assert(w * h <= g * bpr * h) by (nonlinear_arith)
            requires
                image_idx < g,
                w * 4 <= bpr,
                w >= 0,
                h >= 0,
        ;
        let image_data_offset: u32 = image_idx * bytes_per_row * height;
        let mut image: Vec<u8> = Vec::new();
        let mut y: u32 = 0;
        while y < height
            invariant
                g == frame_group_size,
                bpr == bytes_per_row,
                h == height,
                w == width,
                w * OUTPUT_BYTES_PER_PIXEL <= bpr,
                g * bpr * h <= u32::MAX,
                g * bpr * h <= readback@.len(),
                image_idx < g,
                image_data_offset == image_idx * bpr * h,
                y <= h,
                image@.len() == pixel_index(w, y as int, 0),
                forall|yy: int, xx: int|
                    0 <= yy < y && 0 <= xx < w ==> #[trigger] image@[pixel_index(w, yy, xx)]
                        == readback@[luma_offset(bpr, h, image_idx as int, yy, xx)],
            decreases h - y,
        {
            let mut x: u32 = 0;
            while x < width
                invariant
                    g == frame_group_size,
                    bpr == bytes_per_row,
                    h == height,
                    w == width,
                    w * OUTPUT_BYTES_PER_PIXEL <= bpr,
                    g * bpr * h <= u32::MAX,
                    g * bpr * h <= readback@.len(),
                    image_idx < g,
                    image_data_offset == image_idx * bpr * h,
                    y < h,
                    x <= w,
                    image@.len() == pixel_index(w, y as int, x as int),
                    forall|yy: int, xx: int|
                        (0 <= yy < y && 0 <= xx < w) || (yy == y && 0 <= xx < x)
                            ==> #[trigger] image@[pixel_index(w, yy, xx)] == readback@[luma_offset(
                            bpr,
                            h,
                            image_idx as int,
                            yy,
                            xx,
                        )],
                decreases w - x,
            {
                proof {
                    lemma_luma_offset_bound(bpr, h, w, g, image_idx as int, y as int, x as int);
                }
                let at: u32 = image_data_offset + y * bytes_per_row + x * OUTPUT_BYTES_PER_PIXEL;
                let ghost old_image = image@;
                image.push(readback[at as usize]);
                proof {
                    assert forall|yy: int, xx: int|
                        (0 <= yy < y && 0 <= xx < w) || (yy == y && 0 <= xx < x + 1)
                            implies #[trigger] image@[pixel_index(w, yy, xx)] == readback@[luma_offset(
                            bpr,
                            h,
                            image_idx as int,
                            yy,
                            xx,
                        )] by {
                        if !(yy == y && xx == x) {
                            lemma_pixel_index_order(w, yy, xx, y as int, x as int);
                            assert(image@[pixel_index(w, yy, xx)] == old_image[pixel_index(w, yy, xx)]);
                        }
                    }
                }
                x = x + 1;
            }
            assert(pixel_index(w, y as int, w) == pixel_index(w, y + 1, 0)) by (nonlinear_arith);
            y = y + 1;
        }
        assert(pixel_index(w, h, 0) == w * h) by (nonlinear_arith);
        let ghost old_images = output_images@;
        output_images.push(image);
        proof {
            assert forall|i: int, yy: int, xx: int|
                0 <= i < image_idx + 1 && 0 <= yy < h && 0 <= xx < w implies #[trigger] output_images@[i]@[pixel_index(
                w,
                yy,
                xx,
            )] == readback@[luma_offset(bpr, h, i, yy, xx)] by {
                if i < image_idx {
                    assert(output_images@[i] == old_images[i]);
                }
            }
            assert forall|i: int| 0 <= i < image_idx + 1 implies #[trigger] output_images@[i]@.len()
                == w * h by {
                if i < image_idx {
                    assert(output_images@[i] == old_images[i]);
                }
            }
        }
        image_idx = image_idx + 1;
    }
    proof {
        assert forall|i: int, y: int, x: int|
            0 <= i < frame_group_size && 0 <= y < height && 0 <= x < width implies #[trigger] output_images@[i]@[y
                * width + x] == readback@[i * bytes_per_row * height + y * bytes_per_row + 4 * x] by {
            assert(output_images@[i]@[pixel_index(w, y, x)] == readback@[luma_offset(bpr, h, i, y, x)]);
        }
    }
    output_images
}

/// The read back buffer's layout, step by step: the first pixel of the first frame is at the
/// start, the next pixel of a row is 4 bytes further, the next row `bytes_per_row` bytes
/// further, and the next frame `bytes_per_row * height` bytes further.  In the packed image
/// the next pixel of a row comes next and the next row `width` pixels further.
pub proof fn lemma_luma_layout(bytes_per_row: int, height: int, width: int, i: int, y: int, x: int)
    ensures
        luma_offset(bytes_per_row, height, 0, 0, 0) == 0,
        luma_offset(bytes_per_row, height, i, y, x + 1) == luma_offset(bytes_per_row, height, i, y, x)
            + 4,
        luma_offset(bytes_per_row, height, i, y + 1, x) == luma_offset(bytes_per_row, height, i, y, x)
            + bytes_per_row,
        luma_offset(bytes_per_row, height, i + 1, y, x) == luma_offset(bytes_per_row, height, i, y, x)
            + bytes_per_row * height,
        pixel_index(width, 0, 0) == 0,
        pixel_index(width, y, x + 1) == pixel_index(width, y, x) + 1,
        pixel_index(width, y + 1, x) == pixel_index(width, y, x) + width,
{
    assert((y + 1) * width == y * width + width) by (nonlinear_arith);
    assert(0 * bytes_per_row * height == 0) by (nonlinear_arith);
    assert(0 * bytes_per_row == 0) by (nonlinear_arith);
    assert((x + 1) * 4 == x * 4 + 4) by (nonlinear_arith);
    assert((i + 1) * bytes_per_row * height == i * bytes_per_row * height + bytes_per_row * height)
        by (nonlinear_arith);
    assert((y + 1) * bytes_per_row == y * bytes_per_row + bytes_per_row) by (nonlinear_arith);
}

} // verus!
