use vstd::prelude::*;
use vstd::arithmetic::div_mod::{
    lemma_div_pos_is_pos, lemma_fundamental_div_mod, lemma_fundamental_div_mod_converse,
    lemma_mod_bound,
};

verus! {

/// The colour drawn for a field character: red and green for the two
/// players, lighter for their latest pieces, dark blue for the rest.
pub open spec fn color_of(c: char) -> u32 {
    if c == '@' {
        0xFF0000
    } else if c == '$' {
        0x00FF00
    } else if c == 'a' {
        0xFFAAAA
    } else if c == 's' {
        0xAAFFAA
    } else {
        0x123456
    }
}

fn color(c: char) -> (r: u32)
    ensures
        r == color_of(c),
{
    match c {
        '@' => 0xFF0000,
        '$' => 0x00FF00,
        'a' => 0xFFAAAA,
        's' => 0xAAFFAA,
        _ => 0x123456,
    }
}

proof fn lemma_div_below(x: int, s: int, h: int)
    requires
        0 <= x < h * s,
        s > 0,
    ensures
        0 <= x / s < h,
{
    lemma_fundamental_div_mod(x, s);
    lemma_mod_bound(x, s);
    lemma_div_pos_is_pos(x, s);
    let q = x / s;
    let r = x % s;
    assert(q < h) by (nonlinear_arith)
        requires
            x == s * q + r,
            0 <= r,
            x < h * s,
            s > 0,
            q >= 0,
    ;
}

/// Paints the grid into `buffer`, a picture `width * scale` pixels wide and
/// `height * scale` high, in row-major order: each cell becomes a square of
/// `scale` by `scale` pixels of its colour.
pub fn render_grid_to_buffer(
    buffer: &mut [u32],
    grid: &[Vec<char>],
    width: usize,
    height: usize,
    scale: usize,
)
    requires
        grid@.len() >= height,
        forall|y: int| 0 <= y < height ==> (#[trigger] grid@[y])@.len() >= width,
        width * scale <= usize::MAX,
        height * scale <= usize::MAX,
        (width * scale) * (height * scale) <= old(buffer)@.len(),
    ensures
        final(buffer)@.len() == old(buffer)@.len(),
        forall|px: int, py: int|
            0 <= px < width * scale && 0 <= py < height * scale
                ==> #[trigger] final(buffer)@[py * (width * scale) + px]
                == color_of(grid@[py / scale as int]@[px / scale as int]),
        forall|i: int|
            (width * scale) * (height * scale) <= i < old(buffer)@.len()
                ==> #[trigger] final(buffer)@[i] == old(buffer)@[i],
{
    let buf_width = width * scale;
    let buf_height = height * scale;
    let buffer_len = buffer.len();
    assert(buf_width * buf_height <= buffer_len);
    let total = buf_width * buf_height;
    let mut i: usize = 0;
    while i < total
        invariant
            buf_width == width * scale,
            buf_height == height * scale,
            total == buf_width * buf_height,
            total <= buffer@.len(),
            buffer@.len() == old(buffer)@.len(),
            grid@.len() >= height,
            forall|y: int| 0 <= y < height ==> (#[trigger] grid@[y])@.len() >= width,
            i <= total,
            forall|j: int|
                0 <= j < i ==> #[trigger] buffer@[j] == color_of(
                    grid@[(j / buf_width as int) / scale as int]@[(j % buf_width as int) / scale as int],
                ),
            forall|j: int| i <= j < buffer@.len() ==> #[trigger] buffer@[j] == old(buffer)@[j],
        decreases total - i,
    {
        proof {
            assert(buf_width > 0 && buf_height > 0) by (nonlinear_arith)
                requires
                    i < total,
                    total == buf_width * buf_height,
                    buf_width >= 0,
                    buf_height >= 0,
            ;
            assert(scale > 0) by (nonlinear_arith)
                requires
                    buf_width == width * scale,
                    buf_width > 0,
            ;
            lemma_div_below(i as int, buf_width as int, buf_height as int);
            lemma_mod_bound(i as int, buf_width as int);
            lemma_div_below(i as int / buf_width as int, scale as int, height as int);
            lemma_div_below(i as int % buf_width as int, scale as int, width as int);
        }
        let py = i / buf_width;
        let px = i % buf_width;
        let c = grid[py / scale][px / scale];
        buffer[i] = color(c);
        i = i + 1;
    }
    proof {
        assert forall|px: int, py: int|
            0 <= px < width * scale && 0 <= py < height * scale implies #[trigger] buffer@[py
                * (width * scale) + px] == color_of(grid@[py / scale as int]@[px / scale as int]) by {
            let j = py * buf_width + px;
            assert(0 <= j < total) by (nonlinear_arith)
                requires
                    j == py * buf_width + px,
                    0 <= px < buf_width,
                    0 <= py < buf_height,
                    total == buf_width * buf_height,
            ;
            lemma_fundamental_div_mod_converse(j, buf_width as int, py, px);
        }
    }
}

} // verus!
