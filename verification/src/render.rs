use vstd::prelude::*;
use vstd::arithmetic::div_mod::{lemma_fundamental_div_mod, lemma_fundamental_div_mod_converse};
use crate::voxel::{preorder, visits_view, SparseVoxelOctree, VisitView, VoxelColor, MAX_DEPTH};
use vstd::arithmetic::power2::pow2;

verus! {

/// Row (relative to the slice) and column of a slice index in a buffer of
/// rows of `width` pixels.
pub open spec fn row_of(idx: int, width: int) -> int {
    idx / width
}

pub open spec fn col_of(idx: int, width: int) -> int {
    idx % width
}

/// Pixel `idx` of a slice that starts at row `start_row` of the screen, holds
/// `len` pixels and has rows of `width` pixels, lies in the rectangle of
/// columns `min_x..max_x` and rows `min_y..max_y`, in a row that the slice
/// holds whole.
pub open spec fn in_rect(
    idx: int,
    len: int,
    width: int,
    start_row: int,
    min_x: int,
    max_x: int,
    min_y: int,
    max_y: int,
) -> bool {
    &&& 0 <= idx < len
    &&& row_of(idx, width) < len / width
    &&& min_x <= col_of(idx, width) < max_x
    &&& min_y <= start_row + row_of(idx, width) < max_y
}

proof fn lemma_index_in_row(r: int, c: int, width: int, len: int)
    requires
        0 < width,
        0 <= r < len / width,
        0 <= c < width,
        0 <= len,
    ensures
        row_of(r * width + c, width) == r,
        col_of(r * width + c, width) == c,
        0 <= r * width + c < len,
{
    lemma_fundamental_div_mod_converse(r * width + c, width, r, c);
    lemma_fundamental_div_mod(len, width);
    assert(r * width + c < (r + 1) * width) by (nonlinear_arith)
        requires c < width;
    assert((r + 1) * width <= (len / width) * width) by (nonlinear_arith)
        requires r + 1 <= len / width, 0 < width;
    assert(0 <= r * width) by (nonlinear_arith)
        requires 0 <= r, 0 < width;
}

/// The buffer slice after painting the rectangle of columns
/// `min_x..max_x` and rows `min_y..max_y` (screen rows) with `color`.
pub open spec fn painted(
    buf: Seq<u32>,
    width: int,
    start_row: int,
    min_x: int,
    max_x: int,
    min_y: int,
    max_y: int,
    color: u32,
) -> Seq<u32> {
    Seq::new(
        buf.len(),
        |idx: int|
            if in_rect(idx, buf.len() as int, width, start_row, min_x, max_x, min_y, max_y) {
                color
            } else {
                buf[idx]
            },
    )
}

/// The end of the span `start..start + size` clipped to `limit`.
pub open spec fn clip(start: int, size: int, limit: int) -> int {
    if start + size < limit {
        start + size
    } else {
        limit
    }
}

/// The buffer slice after painting the voxel square of side `voxel_size` at
/// (screen_x, screen_y), clipped to the screen.
pub open spec fn painted_voxel(
    buf: Seq<u32>,
    screen_width: usize,
    screen_height: usize,
    start_row: usize,
    screen_x: usize,
    screen_y: usize,
    voxel_size: usize,
    color: u32,
) -> Seq<u32> {
    painted(
        buf,
        screen_width as int,
        start_row as int,
        screen_x as int,
        clip(screen_x as int, voxel_size as int, screen_width as int),
        screen_y as int,
        clip(screen_y as int, voxel_size as int, screen_height as int),
        color,
    )
}

/// Paints one voxel: the square of side `voxel_size` whose top-left pixel is
/// (screen_x, screen_y), clipped to the screen, on the rows of the screen
/// that `buffer_slice` holds (it starts at row `start_row`).
pub fn fill_voxel_rect(
    buffer_slice: &mut [u32],
    screen_width: usize,
    screen_height: usize,
    start_row: usize,
    screen_x: usize,
    screen_y: usize,
    voxel_size: usize,
    color_val: u32,
)
    requires
        screen_width > 0 || clip(screen_y as int, voxel_size as int, screen_height as int) <= screen_y,
        screen_x + voxel_size <= usize::MAX,
        screen_y + voxel_size <= usize::MAX,
        screen_width > 0 ==> start_row + old(buffer_slice)@.len() / (screen_width as nat) <= usize::MAX,
    ensures
        final(buffer_slice)@ == painted_voxel(
            old(buffer_slice)@, screen_width, screen_height, start_row, screen_x, screen_y, voxel_size, color_val,
        ),
{
    let len = buffer_slice.len();
    let min_x = screen_x;
    let max_x = if screen_x + voxel_size < screen_width { screen_x + voxel_size } else { screen_width };
    let min_y = screen_y;
    let max_y = if screen_y + voxel_size < screen_height { screen_y + voxel_size } else { screen_height };
    if screen_width == 0 {
        proof {
            assert(buffer_slice@ =~= painted_voxel(
                buffer_slice@, screen_width, screen_height, start_row, screen_x, screen_y, voxel_size, color_val,
            ));
        }
        return;
    }
    let rows = len / screen_width;
    let ghost w = screen_width as int;
    let ghost old_buf = buffer_slice@;
    let mut y = min_y;
    while y < max_y
        invariant
            buffer_slice@.len() == len,
            len == old_buf.len(),
            rows == len / screen_width,
            screen_width > 0,
            w == screen_width,
            min_y <= y,
            y <= max_y || y == min_y,
            start_row + rows <= usize::MAX,
            max_x <= screen_width,
            forall|idx: int|
                0 <= idx < len ==> #[trigger] buffer_slice@[idx] == if in_rect(
                    idx, len as int, w, start_row as int, min_x as int, max_x as int, min_y as int, y as int,
                ) {
                    color_val
                } else {
                    old_buf[idx]
                },
        decreases max_y - y,
    {
        if y < start_row || y >= start_row + rows {
            proof {
                assert forall|idx: int| 0 <= idx < len implies #[trigger] buffer_slice@[idx] == if in_rect(
                    idx, len as int, w, start_row as int, min_x as int, max_x as int, min_y as int, y + 1,
                ) {
                    color_val
                } else {
                    old_buf[idx]
                } by {
                    if in_rect(idx, len as int, w, start_row as int, min_x as int, max_x as int, min_y as int, y + 1) {
                        lemma_fundamental_div_mod(idx, w);
                        assert(0 <= row_of(idx, w)) by {
                            vstd::arithmetic::div_mod::lemma_div_pos_is_pos(idx, w);
                        }
                        assert(in_rect(idx, len as int, w, start_row as int, min_x as int, max_x as int, min_y as int, y as int));
                    }
                }
            }
            y = y + 1;
            continue;
        }
        let ghost r = (y - start_row) as int;
        proof {
            lemma_index_in_row(r, 0, w, len as int);
        }
        let row_offset = (y - start_row) * screen_width;
        let mut x = min_x;
        while x < max_x
            invariant
                buffer_slice@.len() == len,
                len == old_buf.len(),
                rows == len / screen_width,
                screen_width > 0,
                w == screen_width,
                start_row <= y < start_row + rows,
                r == y - start_row,
                row_offset == r * w,
                min_y <= y < max_y,
                min_x <= x,
                x <= max_x || x == min_x,
                max_x <= screen_width,
                forall|idx: int|
                    0 <= idx < len ==> #[trigger] buffer_slice@[idx] == if in_rect(
                        idx, len as int, w, start_row as int, min_x as int, max_x as int, min_y as int, y as int,
                    ) || in_rect(idx, len as int, w, start_row as int, min_x as int, x as int, y as int, y + 1) {
                        color_val
                    } else {
                        old_buf[idx]
                    },
            decreases max_x - x,
        {
            proof {
                lemma_index_in_row(r, x as int, w, len as int);
            }
            let index = row_offset + x;
            if index < len {
                buffer_slice[index] = color_val;
            }
            proof {
                assert forall|idx: int| 0 <= idx < len implies #[trigger] buffer_slice@[idx] == if in_rect(
                    idx, len as int, w, start_row as int, min_x as int, max_x as int, min_y as int, y as int,
                ) || in_rect(idx, len as int, w, start_row as int, min_x as int, x + 1, y as int, y + 1) {
                    color_val
                } else {
                    old_buf[idx]
                } by {
                    if idx == index {
                        assert(row_of(idx, w) == r);
                        assert(col_of(idx, w) == x);
                        assert(in_rect(idx, len as int, w, start_row as int, min_x as int, x + 1, y as int, y + 1));
                    } else {
                        if in_rect(idx, len as int, w, start_row as int, min_x as int, x + 1, y as int, y + 1) {
                            lemma_fundamental_div_mod(idx, w);
                            if col_of(idx, w) == x {
                                assert(row_of(idx, w) == r);
                                assert(idx == w * r + x as int);
                                assert(w * r == r * w) by (nonlinear_arith);
                                assert(idx == index);
                            }
                            assert(in_rect(idx, len as int, w, start_row as int, min_x as int, x as int, y as int, y + 1));
                        }
                    }
                }
            }
            x = x + 1;
        }
        proof {
            assert forall|idx: int| 0 <= idx < len implies #[trigger] buffer_slice@[idx] == if in_rect(
                idx, len as int, w, start_row as int, min_x as int, max_x as int, min_y as int, y + 1,
            ) {
                color_val
            } else {
                old_buf[idx]
            } by {
                let a = in_rect(idx, len as int, w, start_row as int, min_x as int, max_x as int, min_y as int, y as int);
                let b = in_rect(idx, len as int, w, start_row as int, min_x as int, x as int, y as int, y + 1);
                let c = in_rect(idx, len as int, w, start_row as int, min_x as int, max_x as int, min_y as int, y + 1);
                assert(c <==> (a || b));
            }
        }
        y = y + 1;
    }
    proof {
        assert forall|idx: int| 0 <= idx < len implies in_rect(
            idx, len as int, w, start_row as int, min_x as int, max_x as int, min_y as int, y as int,
        ) == in_rect(idx, len as int, w, start_row as int, min_x as int, max_x as int, min_y as int, max_y as int) by {}
        assert(buffer_slice@ =~= painted_voxel(
            old_buf, screen_width, screen_height, start_row, screen_x, screen_y, voxel_size, color_val,
        ));
    }
}

/// Side, in voxels, of the cube of the world that is drawn.
pub const VOXEL_RANGE: usize = 32;

/// The pixel buffer that voxels are drawn into, row after row.
#[derive(Clone)]
pub struct Renderer {
    pub buffer: Vec<u32>,
    pub render_width: usize,
    pub render_height: usize,
}

impl Renderer {
    /// A black buffer of `render_width * render_height` pixels.
    pub fn new(render_width: usize, render_height: usize) -> (r: Self)
        requires
            render_width * render_height <= usize::MAX,
        ensures
            r.render_width == render_width,
            r.render_height == render_height,
            r.buffer@ == Seq::new((render_width * render_height) as nat, |i: int| 0u32),
    {
        let buffer: Vec<u32> = vec![0; render_width * render_height];
        let r = Renderer { buffer, render_width, render_height };
        proof {
            assert(r.buffer@ =~= Seq::new((render_width * render_height) as nat, |i: int| 0u32));
        }
        r
    }
}

/// Number of pixels that each thread draws: the buffer divided by the
/// number of threads, rounded up.
pub fn block_size(buffer_size: usize, threads: usize) -> (b: usize)
    requires
        threads > 0,
        buffer_size + threads <= usize::MAX,
    ensures
        b == (buffer_size + threads - 1) / (threads as int),
        b * threads >= buffer_size,
{
    let b = (buffer_size + threads - 1) / threads;
    proof {
        lemma_fundamental_div_mod((buffer_size + threads - 1) as int, threads as int);
        assert(b * threads >= buffer_size) by (nonlinear_arith)
            requires
                (buffer_size + threads - 1) as int == threads * b + ((buffer_size + threads - 1) as int % threads as int),
                (buffer_size + threads - 1) as int % threads as int <= threads - 1;
    }
    b
}

/// Screen row at which the `chunk`-th block of `block_size` pixels starts.
pub fn chunk_start_row(chunk: usize, block_size: usize, render_width: usize) -> (row: usize)
    requires
        render_width > 0,
        chunk * block_size <= usize::MAX,
    ensures
        row == (chunk * block_size) / (render_width as int),
{
    (chunk * block_size) / render_width
}

pub open spec fn spec_color_value(color: VoxelColor) -> u32 {
    (color.a * 0x100_0000 + color.r * 0x1_0000 + color.g * 0x100 + color.b) as u32
}

/// A voxel color as one pixel value, 0xAARRGGBB.
pub fn color_value(color: VoxelColor) -> (v: u32)
    ensures
        v == spec_color_value(color),
        v == color.a * 0x100_0000 + color.r * 0x1_0000 + color.g * 0x100 + color.b,
{
    let a = color.a;
    let r = color.r;
    let g = color.g;
    let b = color.b;
    let v = (a as u32) << 24 | (r as u32) << 16 | (g as u32) << 8 | (b as u32);
    assert(((a as u32) << 24 | (r as u32) << 16 | (g as u32) << 8 | (b as u32))
        == a * 0x100_0000 + r * 0x1_0000 + g * 0x100 + b) by (bit_vector);
    v
}

pub open spec fn spec_cache_index(x: usize, y: usize, z: usize) -> int {
    x + y * 32 + z * 32 * 32
}

/// Slot of the voxel (x, y, z) in the cache of the drawn cube.
pub fn cache_index(x: usize, y: usize, z: usize) -> (i: usize)
    requires
        spec_cache_index(x, y, z) <= usize::MAX,
    ensures
        i == spec_cache_index(x, y, z),
{
    x + y * 32 + z * 32 * 32
}

/// A cache with one empty slot per voxel of the drawn cube.
pub fn new_voxel_cache() -> (cache: Vec<Option<VoxelColor>>)
    ensures
        cache@.len() == VOXEL_RANGE * VOXEL_RANGE * VOXEL_RANGE,
        forall|i: int| 0 <= i < cache@.len() ==> #[trigger] cache@[i] is None,
{
    let mut cache: Vec<Option<VoxelColor>> = Vec::new();
    let n = VOXEL_RANGE * VOXEL_RANGE * VOXEL_RANGE;
    while cache.len() < n
        invariant
            cache@.len() <= n,
            n == VOXEL_RANGE * VOXEL_RANGE * VOXEL_RANGE,
            forall|i: int| 0 <= i < cache@.len() ==> #[trigger] cache@[i] is None,
        decreases n - cache@.len(),
    {
        cache.push(None);
    }
    cache
}

/// Side, in voxels, of the cube under a leaf visited at `depth`: 2^(MAX_DEPTH - depth).
pub fn leaf_span(depth: usize) -> (n: usize)
    requires
        depth <= MAX_DEPTH,
    ensures
        n == vstd::arithmetic::power2::pow2((MAX_DEPTH - depth) as nat),
        1 <= n <= 65536,
{
    let shift = MAX_DEPTH - depth;
    proof {
        vstd::arithmetic::power2::lemma_pow2_pos(shift as nat);
        if shift < 16 {
            vstd::arithmetic::power2::lemma_pow2_strictly_increases(shift as nat, 16);
        }
        vstd::arithmetic::power2::lemma2_to64();
        vstd::arithmetic::power2::lemma_pow2_strictly_increases(shift as nat, 64);
        vstd::bits::lemma_u64_shl_is_mul(1, shift as u64);
    }
    (1u64 << shift as u64) as usize
}

/// Draws the voxel (x, y, z) whose top-left pixel is (screen_x, screen_y):
/// the cache slot of the voxel is filled from the octree's hash table if it
/// is empty, and the voxel square is painted with the cached color, if there
/// is one.
pub fn render_cell(
    buffer_slice: &mut [u32],
    voxel_cache: &mut Vec<Option<VoxelColor>>,
    svo: &SparseVoxelOctree,
    x: usize,
    y: usize,
    z: usize,
    screen_x: usize,
    screen_y: usize,
    voxel_size: usize,
    screen_width: usize,
    screen_height: usize,
    start_row: usize,
)
    requires
        spec_cache_index(x, y, z) < old(voxel_cache).len(),
        screen_width > 0 || clip(screen_y as int, voxel_size as int, screen_height as int) <= screen_y,
        screen_x + voxel_size <= usize::MAX,
        screen_y + voxel_size <= usize::MAX,
        screen_width > 0 ==> start_row + old(buffer_slice)@.len() / (screen_width as nat) <= usize::MAX,
    ensures
        final(voxel_cache)@ == if old(voxel_cache)@[spec_cache_index(x, y, z)] is None
            && svo.lookup(x, y, z) is Some {
            old(voxel_cache)@.update(spec_cache_index(x, y, z), Some(svo.lookup(x, y, z)->0.color))
        } else {
            old(voxel_cache)@
        },
        final(buffer_slice)@ == match final(voxel_cache)@[spec_cache_index(x, y, z)] {
            Some(color) => painted_voxel(
                old(buffer_slice)@, screen_width, screen_height, start_row, screen_x, screen_y, voxel_size,
                spec_color_value(color),
            ),
            None => old(buffer_slice)@,
        },
{
    let index = cache_index(x, y, z);
    if voxel_cache[index].is_none() {
        match svo.get(x, y, z) {
            Some(voxel) => {
                voxel_cache.set(index, Some(voxel.color));
            },
            None => {},
        }
    }
    match voxel_cache[index] {
        Some(color) => {
            let color_val = color_value(color);
            fill_voxel_rect(buffer_slice, screen_width, screen_height, start_row, screen_x, screen_y, voxel_size, color_val);
        },
        None => {},
    }
}

/// Where and how the voxels of one slice of the screen are drawn: the
/// screen size, the first screen row of the slice, the side of a voxel
/// square and the screen position of each voxel coordinate.
pub struct DrawParams {
    pub screen_width: usize,
    pub screen_height: usize,
    pub start_row: usize,
    pub voxel_size: usize,
    pub screen_pos: Seq<usize>,
}

/// A slice being drawn and the color cache of the drawn cube.
pub type DrawState = (Seq<u32>, Seq<Option<VoxelColor>>);

/// Drawing the voxel (x, y, z), as `render_cell` does it.
pub open spec fn cell_step(st: DrawState, svo: SparseVoxelOctree, p: DrawParams, x: usize, y: usize, z: usize) -> DrawState {
    let i = spec_cache_index(x, y, z);
    let cache = if st.1[i] is None && svo.lookup(x, y, z) is Some {
        st.1.update(i, Some(svo.lookup(x, y, z)->0.color))
    } else {
        st.1
    };
    let buf = match cache[i] {
        Some(c) => painted_voxel(
            st.0, p.screen_width, p.screen_height, p.start_row, p.screen_pos[x as int], p.screen_pos[y as int],
            p.voxel_size, spec_color_value(c),
        ),
        None => st.0,
    };
    (buf, cache)
}

/// Drawing the voxels (x, y, bz + dz) for dz from `dz` up to `span`.
pub open spec fn draw_column(st: DrawState, svo: SparseVoxelOctree, p: DrawParams, x: usize, y: usize, bz: usize, dz: int, span: int) -> DrawState
    decreases span - dz,
{
    if dz >= span {
        st
    } else {
        draw_column(cell_step(st, svo, p, x, y, (bz + dz) as usize), svo, p, x, y, bz, dz + 1, span)
    }
}

/// Drawing the columns (x, by + dy) for dy from `dy` up to `span`.
pub open spec fn draw_slab(st: DrawState, svo: SparseVoxelOctree, p: DrawParams, x: usize, by: usize, bz: usize, dy: int, span: int) -> DrawState
    decreases span - dy,
{
    if dy >= span {
        st
    } else {
        draw_slab(draw_column(st, svo, p, x, (by + dy) as usize, bz, 0, span), svo, p, x, by, bz, dy + 1, span)
    }
}

/// Drawing the slabs bx + dx for dx from `dx` up to `span`.
pub open spec fn draw_cube(st: DrawState, svo: SparseVoxelOctree, p: DrawParams, bx: usize, by: usize, bz: usize, dx: int, span: int) -> DrawState
    decreases span - dx,
{
    if dx >= span {
        st
    } else {
        draw_cube(draw_slab(st, svo, p, (bx + dx) as usize, by, bz, 0, span), svo, p, bx, by, bz, dx + 1, span)
    }
}

/// A visited node whose cube is drawn voxel by voxel: a node at
/// `MAX_DEPTH`, or one without children.
pub open spec fn drawn_leaf(v: VisitView) -> bool {
    v.1 >= MAX_DEPTH || v.0.bitmask == 0
}

/// Side of the cube under a visited node.
pub open spec fn cube_side(v: VisitView) -> int {
    pow2((MAX_DEPTH - v.1) as nat) as int
}

/// Drawing the cube of a visited node, if it is drawn.
pub open spec fn draw_visit(st: DrawState, svo: SparseVoxelOctree, p: DrawParams, v: VisitView) -> DrawState {
    if drawn_leaf(v) {
        draw_cube(st, svo, p, v.2, v.3, v.4, 0, cube_side(v))
    } else {
        st
    }
}

/// Drawing the visits from `i` on, in order.
pub open spec fn draw_visits(st: DrawState, svo: SparseVoxelOctree, p: DrawParams, visits: Seq<VisitView>, i: int) -> DrawState
    decreases visits.len() - i,
{
    if i >= visits.len() || i < 0 {
        st
    } else {
        draw_visits(draw_visit(st, svo, p, visits[i]), svo, p, visits, i + 1)
    }
}

/// The cube of a drawn visit lies within the color cache of the drawn cube
/// and within the table of screen positions.
pub open spec fn visit_fits(v: VisitView, screen_len: int) -> bool {
    drawn_leaf(v) ==> {
        &&& v.1 <= MAX_DEPTH
        &&& (v.2 + cube_side(v) - 1) + 32 * (v.3 + cube_side(v) - 1) + 1024 * (v.4 + cube_side(v) - 1)
            < (VOXEL_RANGE * VOXEL_RANGE * VOXEL_RANGE) as int
        &&& v.2 + cube_side(v) <= screen_len
        &&& v.3 + cube_side(v) <= screen_len
    }
}

/// Every drawn cube of the octree fits, and no screen position plus the
/// voxel size overflows.
pub open spec fn frame_fits(svo: SparseVoxelOctree, screen_pos: Seq<usize>, voxel_size: usize) -> bool {
    &&& forall|i: int| 0 <= i < screen_pos.len() ==> #[trigger] screen_pos[i] + voxel_size <= usize::MAX
    &&& forall|k: int|
        0 <= k < preorder(svo.root, 0, 0, 0, 0).len() ==> visit_fits(
            #[trigger] preorder(svo.root, 0, 0, 0, 0)[k],
            screen_pos.len() as int,
        )
}

/// Whether the frame can be drawn with this table of screen positions
/// (see `frame_fits`).
pub fn check_frame_fits(svo: &SparseVoxelOctree, screen_pos: &Vec<usize>, voxel_size: usize) -> (ok: bool)
    ensures
        ok == frame_fits(*svo, screen_pos@, voxel_size),
{
    let n = screen_pos.len();
    let mut i: usize = 0;
    while i < n
        invariant
            n == screen_pos@.len(),
            i <= n,
            forall|j: int| 0 <= j < i ==> #[trigger] screen_pos@[j] + voxel_size <= usize::MAX,
        decreases n - i,
    {
        if screen_pos[i] > usize::MAX - voxel_size {
            proof {
                assert(!(screen_pos@[i as int] + voxel_size <= usize::MAX));
            }
            return false;
        }
        i = i + 1;
    }
    let visits = svo.dfs();
    let ghost pre = preorder(svo.root, 0, 0, 0, 0);
    let m = visits.len();
    let mut k: usize = 0;
    while k < m
        invariant
            m == visits@.len(),
            visits_view(visits@) == pre,
            pre == preorder(svo.root, 0, 0, 0, 0),
            k <= m,
            n == screen_pos@.len(),
            forall|j: int| 0 <= j < k ==> visit_fits(#[trigger] pre[j], n as int),
        decreases m - k,
    {
        let (node, depth, bx, by, bz) = visits[k];
        proof {
            assert(pre[k as int] == (*node, depth, bx, by, bz));
        }
        if depth >= MAX_DEPTH || node.bitmask == 0 {
            if depth > MAX_DEPTH {
                proof {
                    assert(!visit_fits(pre[k as int], n as int));
                }
                return false;
            }
            let span = leaf_span(depth);
            if bx >= 32768 || by >= 32768 || bz >= 32768 {
                proof {
                    assert(!visit_fits(pre[k as int], n as int));
                }
                return false;
            }
            let top = (bx + span - 1) + 32 * (by + span - 1) + 1024 * (bz + span - 1);
            if top >= VOXEL_RANGE * VOXEL_RANGE * VOXEL_RANGE || bx + span > n || by + span > n {
                proof {
                    assert(!visit_fits(pre[k as int], n as int));
                }
                return false;
            }
        }
        k = k + 1;
    }
    true
}

/// Draws the slice of the screen that `buffer_slice` holds: walks the
/// octree depth first and, for each node at `MAX_DEPTH` or without
/// children, draws every voxel of its cube with `render_cell` (x slowest,
/// z fastest), through one color cache for the whole slice. Voxel
/// coordinate `v` is drawn at screen position `screen_pos[v]`.
pub fn render_voxel_tree(
    buffer_slice: &mut [u32],
    svo: &SparseVoxelOctree,
    screen_pos: &Vec<usize>,
    voxel_size: usize,
    screen_width: usize,
    screen_height: usize,
    start_row: usize,
)
    requires
        screen_width > 0 || voxel_size == 0,
        screen_width > 0 ==> start_row + old(buffer_slice)@.len() / (screen_width as nat) <= usize::MAX,
        frame_fits(*svo, screen_pos@, voxel_size),
    ensures
        ({
            let p = DrawParams { screen_width, screen_height, start_row, voxel_size, screen_pos: screen_pos@ };
            let start = (old(buffer_slice)@, Seq::new((VOXEL_RANGE * VOXEL_RANGE * VOXEL_RANGE) as nat, |i: int| None::<VoxelColor>));
            final(buffer_slice)@ == draw_visits(start, *svo, p, preorder(svo.root, 0, 0, 0, 0), 0).0
        }),
{
    let ghost p = DrawParams { screen_width, screen_height, start_row, voxel_size, screen_pos: screen_pos@ };
    let ghost pre = preorder(svo.root, 0, 0, 0, 0);
    let ghost goal = draw_visits(
        (buffer_slice@, Seq::new((VOXEL_RANGE * VOXEL_RANGE * VOXEL_RANGE) as nat, |i: int| None::<VoxelColor>)),
        *svo, p, pre, 0,
    );
    let mut cache = new_voxel_cache();
    proof {
        assert(cache@ =~= Seq::new((VOXEL_RANGE * VOXEL_RANGE * VOXEL_RANGE) as nat, |i: int| None::<VoxelColor>));
    }
    let visits = svo.dfs();
    let m = visits.len();
    let mut k: usize = 0;
    while k < m
        invariant
            m == visits@.len(),
            visits_view(visits@) == pre,
            k <= m,
            cache@.len() == VOXEL_RANGE * VOXEL_RANGE * VOXEL_RANGE,
            buffer_slice@.len() == old(buffer_slice)@.len(),
            screen_width > 0 || voxel_size == 0,
            screen_width > 0 ==> start_row + buffer_slice@.len() / (screen_width as nat) <= usize::MAX,
            frame_fits(*svo, screen_pos@, voxel_size),
            pre == preorder(svo.root, 0, 0, 0, 0),
            p == (DrawParams { screen_width, screen_height, start_row, voxel_size, screen_pos: screen_pos@ }),
            draw_visits((buffer_slice@, cache@), *svo, p, pre, k as int) == goal,
        decreases m - k,
    {
        let (node, depth, bx, by, bz) = visits[k];
        let ghost v = pre[k as int];
        proof {
            assert(v == (*node, depth, bx, by, bz));
            assert(visit_fits(v, screen_pos@.len() as int));
        }
        if depth >= MAX_DEPTH || node.bitmask == 0 {
            let span = leaf_span(depth);
            let ghost s = span as int;
            proof {
                assert(s == cube_side(v));
                vstd::arithmetic::power2::lemma_pow2_pos((MAX_DEPTH - depth) as nat);
            }
            let mut dx: usize = 0;
            while dx < span
                invariant
                    s == span,
                    s == cube_side(v),
                    v == (*node, depth, bx, by, bz),
                    drawn_leaf(v),
                    visit_fits(v, screen_pos@.len() as int),
                    dx <= span,
                    cache@.len() == VOXEL_RANGE * VOXEL_RANGE * VOXEL_RANGE,
                    buffer_slice@.len() == old(buffer_slice)@.len(),
                    screen_width > 0 || voxel_size == 0,
                    screen_width > 0 ==> start_row + buffer_slice@.len() / (screen_width as nat) <= usize::MAX,
                    forall|i: int| 0 <= i < screen_pos@.len() ==> #[trigger] screen_pos@[i] + voxel_size <= usize::MAX,
                    p == (DrawParams { screen_width, screen_height, start_row, voxel_size, screen_pos: screen_pos@ }),
                    draw_visits(draw_cube((buffer_slice@, cache@), *svo, p, bx, by, bz, dx as int, s), *svo, p, pre, k + 1) == goal,
                decreases span - dx,
            {
                let x = bx + dx;
                let mut dy: usize = 0;
                while dy < span
                    invariant
                        s == span,
                        s == cube_side(v),
                        v == (*node, depth, bx, by, bz),
                        visit_fits(v, screen_pos@.len() as int),
                        drawn_leaf(v),
                        dx < span,
                        x == bx + dx,
                        dy <= span,
                        cache@.len() == VOXEL_RANGE * VOXEL_RANGE * VOXEL_RANGE,
                        buffer_slice@.len() == old(buffer_slice)@.len(),
                        screen_width > 0 || voxel_size == 0,
                        screen_width > 0 ==> start_row + buffer_slice@.len() / (screen_width as nat) <= usize::MAX,
                        forall|i: int| 0 <= i < screen_pos@.len() ==> #[trigger] screen_pos@[i] + voxel_size <= usize::MAX,
                        p == (DrawParams { screen_width, screen_height, start_row, voxel_size, screen_pos: screen_pos@ }),
                        draw_visits(
                            draw_cube(draw_slab((buffer_slice@, cache@), *svo, p, x, by, bz, dy as int, s), *svo, p, bx, by, bz, dx + 1, s),
                            *svo, p, pre, k + 1,
                        ) == goal,
                    decreases span - dy,
                {
                    let y = by + dy;
                    let mut dz: usize = 0;
                    while dz < span
                        invariant
                            s == span,
                            s == cube_side(v),
                            v == (*node, depth, bx, by, bz),
                            visit_fits(v, screen_pos@.len() as int),
                            drawn_leaf(v),
                            dx < span,
                            dy < span,
                            x == bx + dx,
                            y == by + dy,
                            dz <= span,
                            cache@.len() == VOXEL_RANGE * VOXEL_RANGE * VOXEL_RANGE,
                            buffer_slice@.len() == old(buffer_slice)@.len(),
                            screen_width > 0 || voxel_size == 0,
                            screen_width > 0 ==> start_row + buffer_slice@.len() / (screen_width as nat) <= usize::MAX,
                            forall|i: int| 0 <= i < screen_pos@.len() ==> #[trigger] screen_pos@[i] + voxel_size <= usize::MAX,
                            p == (DrawParams { screen_width, screen_height, start_row, voxel_size, screen_pos: screen_pos@ }),
                            draw_visits(
                                draw_cube(
                                    draw_slab(draw_column((buffer_slice@, cache@), *svo, p, x, y, bz, dz as int, s), *svo, p, x, by, bz, dy + 1, s),
                                    *svo, p, bx, by, bz, dx + 1, s,
                                ),
                                *svo, p, pre, k + 1,
                            ) == goal,
                        decreases span - dz,
                    {
                        let z = bz + dz;
                        let screen_x = screen_pos[x];
                        let screen_y = screen_pos[y];
                        let ghost before: DrawState = (buffer_slice@, cache@);
                        render_cell(
                            buffer_slice, &mut cache, svo, x, y, z, screen_x, screen_y, voxel_size, screen_width,
                            screen_height, start_row,
                        );
                        proof {
                            assert((buffer_slice@, cache@) == cell_step(before, *svo, p, x, y, z));
                        }
                        dz = dz + 1;
                    }
                    dy = dy + 1;
                }
                dx = dx + 1;
            }
        }
        k = k + 1;
    }
}

} // verus!

verus! {

/// The same drawing, on a slice that starts at screen row `row`.
pub open spec fn at_row(p: DrawParams, row: usize) -> DrawParams {
    DrawParams {
        screen_width: p.screen_width,
        screen_height: p.screen_height,
        start_row: row,
        voxel_size: p.voxel_size,
        screen_pos: p.screen_pos,
    }
}

/// Drawing `whole` gives `top` followed by `bottom`, with one cache, and the
/// top part keeps its length.
pub open spec fn split_as(whole: DrawState, top: DrawState, bottom: DrawState, top_len: int) -> bool {
    &&& whole.0 == top.0 + bottom.0
    &&& whole.1 == top.1
    &&& bottom.1 == top.1
    &&& top.0.len() == top_len
}

proof fn lemma_row_split(idx: int, len1: int, len2: int, w: int, k: int)
    requires
        w > 0,
        k >= 0,
        len1 == k * w,
        len2 >= 0,
        len1 <= idx < len1 + len2,
    ensures
        row_of(idx, w) == k + row_of(idx - len1, w),
        col_of(idx, w) == col_of(idx - len1, w),
        (len1 + len2) / w == k + len2 / w,
{
    let j = idx - len1;
    vstd::arithmetic::div_mod::lemma_fundamental_div_mod(j, w);
    vstd::arithmetic::div_mod::lemma_fundamental_div_mod(len2, w);
    assert(idx == (k + j / w) * w + j % w) by (nonlinear_arith)
        requires
            idx == len1 + j,
            len1 == k * w,
            j == w * (j / w) + j % w,
    ;
    assert(len1 + len2 == (k + len2 / w) * w + len2 % w) by (nonlinear_arith)
        requires
            len1 == k * w,
            len2 == w * (len2 / w) + len2 % w,
    ;
    lemma_fundamental_div_mod_converse(idx, w, k + j / w, j % w);
    lemma_fundamental_div_mod_converse(len1 + len2, w, k + len2 / w, len2 % w);
}

proof fn lemma_row_top(idx: int, len1: int, len2: int, w: int, k: int)
    requires
        w > 0,
        k >= 0,
        len1 == k * w,
        len2 >= 0,
        0 <= idx < len1,
    ensures
        row_of(idx, w) < k,
        len1 / w == k,
        (len1 + len2) / w >= k,
{
    vstd::arithmetic::div_mod::lemma_fundamental_div_mod(idx, w);
    vstd::arithmetic::div_mod::lemma_fundamental_div_mod(len2, w);
    assert(len1 == k * w + 0);
    lemma_fundamental_div_mod_converse(len1, w, k, 0);
    assert(row_of(idx, w) < k) by (nonlinear_arith)
        requires
            idx == w * (idx / w) + idx % w,
            0 <= idx % w,
            idx < k * w,
            w > 0,
    ;
    assert(len2 / w >= 0) by (nonlinear_arith)
        requires len2 >= 0, w > 0;
    lemma_row_split(len1, len1, len2 + 1, w, k);
    assert(len1 + len2 == (k + len2 / w) * w + len2 % w) by (nonlinear_arith)
        requires
            len1 == k * w,
            len2 == w * (len2 / w) + len2 % w,
    ;
    lemma_fundamental_div_mod_converse(len1 + len2, w, k + len2 / w, len2 % w);
}

proof fn lemma_painted_split(
    b1: Seq<u32>,
    b2: Seq<u32>,
    w: int,
    row: int,
    k: int,
    min_x: int,
    max_x: int,
    min_y: int,
    max_y: int,
    color: u32,
)
    requires
        w > 0,
        k >= 0,
        b1.len() == k * w,
    ensures
        painted(b1 + b2, w, row, min_x, max_x, min_y, max_y, color)
            == painted(b1, w, row, min_x, max_x, min_y, max_y, color)
            + painted(b2, w, row + k, min_x, max_x, min_y, max_y, color),
{
    let whole = painted(b1 + b2, w, row, min_x, max_x, min_y, max_y, color);
    let top = painted(b1, w, row, min_x, max_x, min_y, max_y, color);
    let bottom = painted(b2, w, row + k, min_x, max_x, min_y, max_y, color);
    let len1 = b1.len() as int;
    let len2 = b2.len() as int;
    assert forall|idx: int| 0 <= idx < whole.len() implies whole[idx] == (top + bottom)[idx] by {
        if idx < len1 {
            lemma_row_top(idx, len1, len2, w, k);
        } else {
            lemma_row_split(idx, len1, len2, w, k);
        }
    }
    assert(whole =~= top + bottom);
}

proof fn lemma_cell_split(
    b1: Seq<u32>,
    b2: Seq<u32>,
    c: Seq<Option<VoxelColor>>,
    svo: SparseVoxelOctree,
    p: DrawParams,
    k: usize,
    x: usize,
    y: usize,
    z: usize,
)
    requires
        p.screen_width > 0,
        b1.len() == k * p.screen_width,
        p.start_row + k <= usize::MAX,
    ensures
        split_as(
            cell_step((b1 + b2, c), svo, p, x, y, z),
            cell_step((b1, c), svo, p, x, y, z),
            cell_step((b2, c), svo, at_row(p, (p.start_row + k) as usize), x, y, z),
            b1.len() as int,
        ),
{
    let i = spec_cache_index(x, y, z);
    let cache = if c[i] is None && svo.lookup(x, y, z) is Some {
        c.update(i, Some(svo.lookup(x, y, z)->0.color))
    } else {
        c
    };
    match cache[i] {
        Some(col) => {
            let sx = p.screen_pos[x as int] as int;
            let sy = p.screen_pos[y as int] as int;
            let vs = p.voxel_size as int;
            lemma_painted_split(
                b1, b2, p.screen_width as int, p.start_row as int, k as int, sx,
                clip(sx, vs, p.screen_width as int), sy, clip(sy, vs, p.screen_height as int),
                spec_color_value(col),
            );
        },
        None => {},
    }
}

proof fn lemma_column_split(
    b1: Seq<u32>,
    b2: Seq<u32>,
    c: Seq<Option<VoxelColor>>,
    svo: SparseVoxelOctree,
    p: DrawParams,
    k: usize,
    x: usize,
    y: usize,
    bz: usize,
    dz: int,
    span: int,
)
    requires
        p.screen_width > 0,
        b1.len() == k * p.screen_width,
        p.start_row + k <= usize::MAX,
    ensures
        split_as(
            draw_column((b1 + b2, c), svo, p, x, y, bz, dz, span),
            draw_column((b1, c), svo, p, x, y, bz, dz, span),
            draw_column((b2, c), svo, at_row(p, (p.start_row + k) as usize), x, y, bz, dz, span),
            b1.len() as int,
        ),
    decreases span - dz,
{
    if dz < span {
        let z = (bz + dz) as usize;
        let q = at_row(p, (p.start_row + k) as usize);
        lemma_cell_split(b1, b2, c, svo, p, k, x, y, z);
        let t = cell_step((b1, c), svo, p, x, y, z);
        let b = cell_step((b2, c), svo, q, x, y, z);
        lemma_column_split(t.0, b.0, t.1, svo, p, k, x, y, bz, dz + 1, span);
        assert(cell_step((b1 + b2, c), svo, p, x, y, z) == (t.0 + b.0, t.1));
        assert(b == (b.0, t.1));
    }
}

proof fn lemma_slab_split(
    b1: Seq<u32>,
    b2: Seq<u32>,
    c: Seq<Option<VoxelColor>>,
    svo: SparseVoxelOctree,
    p: DrawParams,
    k: usize,
    x: usize,
    by: usize,
    bz: usize,
    dy: int,
    span: int,
)
    requires
        p.screen_width > 0,
        b1.len() == k * p.screen_width,
        p.start_row + k <= usize::MAX,
    ensures
        split_as(
            draw_slab((b1 + b2, c), svo, p, x, by, bz, dy, span),
            draw_slab((b1, c), svo, p, x, by, bz, dy, span),
            draw_slab((b2, c), svo, at_row(p, (p.start_row + k) as usize), x, by, bz, dy, span),
            b1.len() as int,
        ),
    decreases span - dy,
{
    if dy < span {
        let y = (by + dy) as usize;
        let q = at_row(p, (p.start_row + k) as usize);
        lemma_column_split(b1, b2, c, svo, p, k, x, y, bz, 0, span);
        let t = draw_column((b1, c), svo, p, x, y, bz, 0, span);
        let b = draw_column((b2, c), svo, q, x, y, bz, 0, span);
        lemma_slab_split(t.0, b.0, t.1, svo, p, k, x, by, bz, dy + 1, span);
        assert(draw_column((b1 + b2, c), svo, p, x, y, bz, 0, span) == (t.0 + b.0, t.1));
        assert(b == (b.0, t.1));
    }
}

proof fn lemma_cube_split(
    b1: Seq<u32>,
    b2: Seq<u32>,
    c: Seq<Option<VoxelColor>>,
    svo: SparseVoxelOctree,
    p: DrawParams,
    k: usize,
    bx: usize,
    by: usize,
    bz: usize,
    dx: int,
    span: int,
)
    requires
        p.screen_width > 0,
        b1.len() == k * p.screen_width,
        p.start_row + k <= usize::MAX,
    ensures
        split_as(
            draw_cube((b1 + b2, c), svo, p, bx, by, bz, dx, span),
            draw_cube((b1, c), svo, p, bx, by, bz, dx, span),
            draw_cube((b2, c), svo, at_row(p, (p.start_row + k) as usize), bx, by, bz, dx, span),
            b1.len() as int,
        ),
    decreases span - dx,
{
    if dx < span {
        let x = (bx + dx) as usize;
        let q = at_row(p, (p.start_row + k) as usize);
        lemma_slab_split(b1, b2, c, svo, p, k, x, by, bz, 0, span);
        let t = draw_slab((b1, c), svo, p, x, by, bz, 0, span);
        let b = draw_slab((b2, c), svo, q, x, by, bz, 0, span);
        lemma_cube_split(t.0, b.0, t.1, svo, p, k, bx, by, bz, dx + 1, span);
        assert(draw_slab((b1 + b2, c), svo, p, x, by, bz, 0, span) == (t.0 + b.0, t.1));
        assert(b == (b.0, t.1));
    }
}

proof fn lemma_visits_split(
    b1: Seq<u32>,
    b2: Seq<u32>,
    c: Seq<Option<VoxelColor>>,
    svo: SparseVoxelOctree,
    p: DrawParams,
    k: usize,
    visits: Seq<VisitView>,
    i: int,
)
    requires
        p.screen_width > 0,
        b1.len() == k * p.screen_width,
        p.start_row + k <= usize::MAX,
    ensures
        split_as(
            draw_visits((b1 + b2, c), svo, p, visits, i),
            draw_visits((b1, c), svo, p, visits, i),
            draw_visits((b2, c), svo, at_row(p, (p.start_row + k) as usize), visits, i),
            b1.len() as int,
        ),
    decreases visits.len() - i,
{
    if 0 <= i < visits.len() {
        let v = visits[i];
        let q = at_row(p, (p.start_row + k) as usize);
        if drawn_leaf(v) {
            lemma_cube_split(b1, b2, c, svo, p, k, v.2, v.3, v.4, 0, cube_side(v));
        }
        let t = draw_visit((b1, c), svo, p, v);
        let b = draw_visit((b2, c), svo, q, v);
        lemma_visits_split(t.0, b.0, t.1, svo, p, k, visits, i + 1);
        assert(draw_visit((b1 + b2, c), svo, p, v) == (t.0 + b.0, t.1));
        assert(b == (b.0, t.1));
    }
}

/// Drawing does not depend on how the screen is cut into slices of whole
/// rows: drawing a slice made of a top part of `k` rows and the rows below
/// it gives the pixels of drawing the top part, followed by those of
/// drawing the rest as a slice that starts `k` rows lower, each from the
/// same (fresh) color cache.
pub proof fn law_slices_draw_alike(
    top: Seq<u32>,
    rest: Seq<u32>,
    cache: Seq<Option<VoxelColor>>,
    svo: SparseVoxelOctree,
    p: DrawParams,
    k: usize,
    visits: Seq<VisitView>,
)
    requires
        p.screen_width > 0,
        top.len() == k * p.screen_width,
        p.start_row + k <= usize::MAX,
    ensures
        draw_visits((top + rest, cache), svo, p, visits, 0).0
            == draw_visits((top, cache), svo, p, visits, 0).0
            + draw_visits((rest, cache), svo, at_row(p, (p.start_row + k) as usize), visits, 0).0,
{
    lemma_visits_split(top, rest, cache, svo, p, k, visits, 0);
}

} // verus!

verus! {

/// The voxels (x, y, bz + dz) for dz from `dz` up to `span`, in drawing order.
pub open spec fn column_cells(x: usize, y: usize, bz: usize, dz: int, span: int) -> Seq<(usize, usize, usize)>
    decreases span - dz,
{
    if dz >= span {
        Seq::empty()
    } else {
        seq![(x, y, (bz + dz) as usize)] + column_cells(x, y, bz, dz + 1, span)
    }
}

/// The voxels of the columns (x, by + dy) for dy from `dy` up to `span`.
pub open spec fn slab_cells(x: usize, by: usize, bz: usize, dy: int, span: int) -> Seq<(usize, usize, usize)>
    decreases span - dy,
{
    if dy >= span {
        Seq::empty()
    } else {
        column_cells(x, (by + dy) as usize, bz, 0, span) + slab_cells(x, by, bz, dy + 1, span)
    }
}

/// The voxels of the slabs bx + dx for dx from `dx` up to `span`.
pub open spec fn cube_cells(bx: usize, by: usize, bz: usize, dx: int, span: int) -> Seq<(usize, usize, usize)>
    decreases span - dx,
{
    if dx >= span {
        Seq::empty()
    } else {
        slab_cells((bx + dx) as usize, by, bz, 0, span) + cube_cells(bx, by, bz, dx + 1, span)
    }
}

/// Every voxel drawn for the visits from `i` on, in drawing order.
pub open spec fn visit_cells(visits: Seq<VisitView>, i: int) -> Seq<(usize, usize, usize)>
    decreases visits.len() - i,
{
    if i >= visits.len() || i < 0 {
        Seq::empty()
    } else {
        let v = visits[i];
        (if drawn_leaf(v) {
            cube_cells(v.2, v.3, v.4, 0, cube_side(v))
        } else {
            Seq::empty()
        }) + visit_cells(visits, i + 1)
    }
}

/// Drawing the voxels `cells[i..]` one after the other.
pub open spec fn draw_cells(st: DrawState, svo: SparseVoxelOctree, p: DrawParams, cells: Seq<(usize, usize, usize)>, i: int) -> DrawState
    decreases cells.len() - i,
{
    if i >= cells.len() || i < 0 {
        st
    } else {
        draw_cells(cell_step(st, svo, p, cells[i].0, cells[i].1, cells[i].2), svo, p, cells, i + 1)
    }
}

proof fn lemma_draw_cells_concat(
    st: DrawState,
    svo: SparseVoxelOctree,
    p: DrawParams,
    a: Seq<(usize, usize, usize)>,
    b: Seq<(usize, usize, usize)>,
    i: int,
)
    requires
        0 <= i <= a.len(),
    ensures
        draw_cells(st, svo, p, a + b, i) == draw_cells(draw_cells(st, svo, p, a, i), svo, p, b, 0),
    decreases a.len() - i,
{
    if i < a.len() {
        assert((a + b)[i] == a[i]);
        lemma_draw_cells_concat(cell_step(st, svo, p, a[i].0, a[i].1, a[i].2), svo, p, a, b, i + 1);
    } else {
        lemma_draw_cells_shift(st, svo, p, a, b, 0);
    }
}

proof fn lemma_draw_cells_shift(
    st: DrawState,
    svo: SparseVoxelOctree,
    p: DrawParams,
    a: Seq<(usize, usize, usize)>,
    b: Seq<(usize, usize, usize)>,
    j: int,
)
    requires
        0 <= j <= b.len(),
    ensures
        draw_cells(st, svo, p, a + b, a.len() + j) == draw_cells(st, svo, p, b, j),
    decreases b.len() - j,
{
    if j < b.len() {
        assert((a + b)[a.len() + j] == b[j]);
        lemma_draw_cells_shift(cell_step(st, svo, p, b[j].0, b[j].1, b[j].2), svo, p, a, b, j + 1);
    }
}

proof fn lemma_column_cells(st: DrawState, svo: SparseVoxelOctree, p: DrawParams, x: usize, y: usize, bz: usize, dz: int, span: int)
    ensures
        draw_column(st, svo, p, x, y, bz, dz, span) == draw_cells(st, svo, p, column_cells(x, y, bz, dz, span), 0),
    decreases span - dz,
{
    if dz < span {
        let c = (x, y, (bz + dz) as usize);
        let rest = column_cells(x, y, bz, dz + 1, span);
        lemma_column_cells(cell_step(st, svo, p, x, y, c.2), svo, p, x, y, bz, dz + 1, span);
        lemma_draw_cells_concat(st, svo, p, seq![c], rest, 0);
        let st1 = cell_step(st, svo, p, x, y, c.2);
        assert(seq![c][0] == c);
        assert(draw_cells(st1, svo, p, seq![c], 1) == st1);
        assert(draw_cells(st, svo, p, seq![c], 0) == st1);
    }
}

proof fn lemma_slab_cells(st: DrawState, svo: SparseVoxelOctree, p: DrawParams, x: usize, by: usize, bz: usize, dy: int, span: int)
    ensures
        draw_slab(st, svo, p, x, by, bz, dy, span) == draw_cells(st, svo, p, slab_cells(x, by, bz, dy, span), 0),
    decreases span - dy,
{
    if dy < span {
        let y = (by + dy) as usize;
        let col = column_cells(x, y, bz, 0, span);
        lemma_column_cells(st, svo, p, x, y, bz, 0, span);
        lemma_slab_cells(draw_column(st, svo, p, x, y, bz, 0, span), svo, p, x, by, bz, dy + 1, span);
        lemma_draw_cells_concat(st, svo, p, col, slab_cells(x, by, bz, dy + 1, span), 0);
    }
}

proof fn lemma_cube_cells(st: DrawState, svo: SparseVoxelOctree, p: DrawParams, bx: usize, by: usize, bz: usize, dx: int, span: int)
    ensures
        draw_cube(st, svo, p, bx, by, bz, dx, span) == draw_cells(st, svo, p, cube_cells(bx, by, bz, dx, span), 0),
    decreases span - dx,
{
    if dx < span {
        let x = (bx + dx) as usize;
        let slab = slab_cells(x, by, bz, 0, span);
        lemma_slab_cells(st, svo, p, x, by, bz, 0, span);
        lemma_cube_cells(draw_slab(st, svo, p, x, by, bz, 0, span), svo, p, bx, by, bz, dx + 1, span);
        lemma_draw_cells_concat(st, svo, p, slab, cube_cells(bx, by, bz, dx + 1, span), 0);
    }
}

proof fn lemma_visit_cells(st: DrawState, svo: SparseVoxelOctree, p: DrawParams, visits: Seq<VisitView>, i: int)
    ensures
        draw_visits(st, svo, p, visits, i) == draw_cells(st, svo, p, visit_cells(visits, i), 0),
    decreases visits.len() - i,
{
    if 0 <= i < visits.len() {
        let v = visits[i];
        let here = if drawn_leaf(v) {
            cube_cells(v.2, v.3, v.4, 0, cube_side(v))
        } else {
            Seq::empty()
        };
        if drawn_leaf(v) {
            lemma_cube_cells(st, svo, p, v.2, v.3, v.4, 0, cube_side(v));
        }
        lemma_visit_cells(draw_visit(st, svo, p, v), svo, p, visits, i + 1);
        lemma_draw_cells_concat(st, svo, p, here, visit_cells(visits, i + 1), 0);
    }
}

} // verus!

verus! {

/// A voxel coordinate inside the drawn cube, whose cache slot no other
/// voxel of the cube shares.
pub open spec fn in_cube_range(c: (usize, usize, usize)) -> bool {
    c.0 < VOXEL_RANGE && c.1 < VOXEL_RANGE && c.2 < VOXEL_RANGE
}

/// Every color in the cache is the color of the voxel that the table holds
/// for the coordinate of that slot.
pub open spec fn cache_agrees(cache: Seq<Option<VoxelColor>>, svo: SparseVoxelOctree) -> bool {
    &&& cache.len() == VOXEL_RANGE * VOXEL_RANGE * VOXEL_RANGE
    &&& forall|x: usize, y: usize, z: usize|
        x < VOXEL_RANGE && y < VOXEL_RANGE && z < VOXEL_RANGE ==> match #[trigger] cache[spec_cache_index(x, y, z)] {
            Some(col) => svo.lookup(x, y, z) is Some && svo.lookup(x, y, z)->0.color == col,
            None => true,
        }
}

/// The square of voxel `c` covers pixel `idx` of a slice of `len` pixels.
pub open spec fn covers(p: DrawParams, c: (usize, usize, usize), idx: int, len: int) -> bool {
    let sx = p.screen_pos[c.0 as int] as int;
    let sy = p.screen_pos[c.1 as int] as int;
    in_rect(
        idx, len, p.screen_width as int, p.start_row as int, sx, clip(sx, p.voxel_size as int, p.screen_width as int),
        sy, clip(sy, p.voxel_size as int, p.screen_height as int),
    )
}

/// What pixel `idx` shows after the voxels `cells[0..n]` are drawn over a
/// pixel that showed `old_px`: the color of the last of them that the table
/// holds and whose square covers the pixel, or `old_px` if there is none.
pub open spec fn pixel_shown(
    svo: SparseVoxelOctree,
    p: DrawParams,
    cells: Seq<(usize, usize, usize)>,
    n: int,
    idx: int,
    old_px: u32,
    len: int,
) -> u32
    decreases n,
{
    if n <= 0 {
        old_px
    } else {
        let c = cells[n - 1];
        if svo.lookup(c.0, c.1, c.2) is Some && covers(p, c, idx, len) {
            spec_color_value(svo.lookup(c.0, c.1, c.2)->0.color)
        } else {
            pixel_shown(svo, p, cells, n - 1, idx, old_px, len)
        }
    }
}

proof fn lemma_cache_index_injective(x: usize, y: usize, z: usize, x2: usize, y2: usize, z2: usize)
    requires
        x < 32 && y < 32 && z < 32,
        x2 < 32 && y2 < 32 && z2 < 32,
        spec_cache_index(x, y, z) == spec_cache_index(x2, y2, z2),
    ensures
        x == x2 && y == y2 && z == z2,
{
    assert(z == z2) by (nonlinear_arith)
        requires
            x < 32 && y < 32 && x2 < 32 && y2 < 32,
            x + y * 32 + z * 1024 == x2 + y2 * 32 + z2 * 1024,
    ;
    assert(y == y2) by (nonlinear_arith)
        requires
            x < 32 && x2 < 32,
            x + y * 32 == x2 + y2 * 32,
    ;
}

proof fn lemma_cell_pixels(st: DrawState, svo: SparseVoxelOctree, p: DrawParams, c: (usize, usize, usize))
    requires
        cache_agrees(st.1, svo),
        in_cube_range(c),
    ensures
        cache_agrees(cell_step(st, svo, p, c.0, c.1, c.2).1, svo),
        cell_step(st, svo, p, c.0, c.1, c.2).0.len() == st.0.len(),
        forall|idx: int|
            0 <= idx < st.0.len() ==> #[trigger] cell_step(st, svo, p, c.0, c.1, c.2).0[idx] == if svo.lookup(
                c.0,
                c.1,
                c.2,
            ) is Some && covers(p, c, idx, st.0.len() as int) {
                spec_color_value(svo.lookup(c.0, c.1, c.2)->0.color)
            } else {
                st.0[idx]
            },
{
    let i = spec_cache_index(c.0, c.1, c.2);
    let cache = cell_step(st, svo, p, c.0, c.1, c.2).1;
    assert(0 <= i < VOXEL_RANGE * VOXEL_RANGE * VOXEL_RANGE);
    match st.1[i] {
        Some(col) => {},
        None => {},
    }
    assert forall|x: usize, y: usize, z: usize|
        x < VOXEL_RANGE && y < VOXEL_RANGE && z < VOXEL_RANGE implies match #[trigger] cache[spec_cache_index(x, y, z)] {
            Some(col) => svo.lookup(x, y, z) is Some && svo.lookup(x, y, z)->0.color == col,
            None => true,
        } by {
        if spec_cache_index(x, y, z) == i {
            lemma_cache_index_injective(x, y, z, c.0, c.1, c.2);
        } else {
            assert(cache[spec_cache_index(x, y, z)] == st.1[spec_cache_index(x, y, z)]);
        }
    }
}

proof fn lemma_pixel_prefix(
    svo: SparseVoxelOctree,
    p: DrawParams,
    cells: Seq<(usize, usize, usize)>,
    n: int,
    idx: int,
    old_px: u32,
    len: int,
)
    requires
        0 <= n < cells.len(),
    ensures
        pixel_shown(svo, p, cells, n, idx, old_px, len) == pixel_shown(svo, p, cells.drop_last(), n, idx, old_px, len),
    decreases n,
{
    if n > 0 {
        assert(cells[n - 1] == cells.drop_last()[n - 1]);
        lemma_pixel_prefix(svo, p, cells, n - 1, idx, old_px, len);
    }
}

proof fn lemma_cells_pixels(st: DrawState, svo: SparseVoxelOctree, p: DrawParams, cells: Seq<(usize, usize, usize)>)
    requires
        cache_agrees(st.1, svo),
        forall|k: int| 0 <= k < cells.len() ==> in_cube_range(#[trigger] cells[k]),
    ensures
        cache_agrees(draw_cells(st, svo, p, cells, 0).1, svo),
        draw_cells(st, svo, p, cells, 0).0.len() == st.0.len(),
        forall|idx: int|
            0 <= idx < st.0.len() ==> #[trigger] draw_cells(st, svo, p, cells, 0).0[idx] == pixel_shown(
                svo,
                p,
                cells,
                cells.len() as int,
                idx,
                st.0[idx],
                st.0.len() as int,
            ),
    decreases cells.len(),
{
    if cells.len() > 0 {
        let front = cells.drop_last();
        let c = cells.last();
        assert(cells =~= front + seq![c]);
        assert forall|k: int| 0 <= k < front.len() implies in_cube_range(#[trigger] front[k]) by {
            assert(front[k] == cells[k]);
        }
        lemma_cells_pixels(st, svo, p, front);
        let mid = draw_cells(st, svo, p, front, 0);
        lemma_draw_cells_concat(st, svo, p, front, seq![c], 0);
        assert(draw_cells(st, svo, p, front, front.len() as int) == st);
        let st1 = cell_step(mid, svo, p, c.0, c.1, c.2);
        assert(seq![c][0] == c);
        assert(draw_cells(st1, svo, p, seq![c], 1) == st1);
        assert(draw_cells(mid, svo, p, seq![c], 0) == st1);
        assert(draw_cells(st, svo, p, cells, 0) == st1);
        assert(in_cube_range(cells[cells.len() - 1]));
        lemma_cell_pixels(mid, svo, p, c);
        assert forall|idx: int| 0 <= idx < st.0.len() implies #[trigger] draw_cells(st, svo, p, cells, 0).0[idx]
            == pixel_shown(svo, p, cells, cells.len() as int, idx, st.0[idx], st.0.len() as int) by {
            assert(mid.0[idx] == pixel_shown(svo, p, front, front.len() as int, idx, st.0[idx], st.0.len() as int));
            lemma_pixel_prefix(svo, p, cells, front.len() as int, idx, st.0[idx], st.0.len() as int);
            assert(st1.0[idx] == if svo.lookup(c.0, c.1, c.2) is Some && covers(p, c, idx, st.0.len() as int) {
                spec_color_value(svo.lookup(c.0, c.1, c.2)->0.color)
            } else {
                mid.0[idx]
            });
        }
    }
}

/// What a frame shows, pixel by pixel: drawing the visits `visits` (for a
/// slice, those of `render_voxel_tree`) from a fresh color cache leaves each
/// pixel showing the color of the last drawn voxel that the table holds and
/// whose square covers it, or what it showed before if there is none.
/// Stated for frames whose drawn voxels all lie in the cached cube
/// (coordinates below `VOXEL_RANGE`), where no two voxels share a cache slot.
pub proof fn law_pixel_shows_last_voxel(
    buf: Seq<u32>,
    svo: SparseVoxelOctree,
    p: DrawParams,
    visits: Seq<VisitView>,
)
    requires
        forall|k: int| 0 <= k < visit_cells(visits, 0).len() ==> in_cube_range(#[trigger] visit_cells(visits, 0)[k]),
    ensures
        ({
            let fresh = Seq::new((VOXEL_RANGE * VOXEL_RANGE * VOXEL_RANGE) as nat, |i: int| None::<VoxelColor>);
            let shown = draw_visits((buf, fresh), svo, p, visits, 0).0;
            &&& shown.len() == buf.len()
            &&& forall|idx: int|
                0 <= idx < buf.len() ==> #[trigger] shown[idx] == pixel_shown(
                    svo,
                    p,
                    visit_cells(visits, 0),
                    visit_cells(visits, 0).len() as int,
                    idx,
                    buf[idx],
                    buf.len() as int,
                )
        }),
{
    let fresh = Seq::new((VOXEL_RANGE * VOXEL_RANGE * VOXEL_RANGE) as nat, |i: int| None::<VoxelColor>);
    assert(cache_agrees(fresh, svo));
    lemma_visit_cells((buf, fresh), svo, p, visits, 0);
    lemma_cells_pixels((buf, fresh), svo, p, visit_cells(visits, 0));
}

} // verus!
