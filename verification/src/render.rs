//! What the renderer works out before it talks to the GPU.
use vstd::prelude::*;

verus! {

/// Which side of its position a text is on.
#[derive(Debug, Clone, Copy, PartialEq, Eq, Structural)]
pub enum Align {
    Left,
    Center,
    Right,
}

/// A part of an image that is small enough for one texture.
#[derive(Debug, Clone, Copy, PartialEq, Eq, Structural)]
pub struct Tile {
    pub x: u32,
    pub y: u32,
    pub w: u32,
    pub h: u32,
    /// Where the tile's first pixel stands in the image's bytes.
    pub offset: u64,
}

/// How many pieces of at most `max` a length is cut into.
pub open spec fn pieces(len: int, max: int) -> int {
    (len + max - 1) / max
}

pub open spec fn smaller(a: int, b: int) -> int {
    if a < b {
        a
    } else {
        b
    }
}

/// The tile in column `c` of row `r`.
pub open spec fn tile_at(width: int, height: int, max: int, c: int, r: int) -> Tile {
    let x = c * max;
    let y = r * max;
    Tile {
        x: x as u32,
        y: y as u32,
        w: smaller(width - x, max) as u32,
        h: smaller(height - y, max) as u32,
        offset: (4 * (y * width + x)) as u64,
    }
}

/// The tiles of the first `r` rows and of `c` columns of the next, row by row.
pub open spec fn is_tiled(tiles: Seq<Tile>, width: int, height: int, max: int, r: int, c: int) -> bool {
    let cols = pieces(width, max);
    &&& tiles.len() == r * cols + c
    &&& forall|i: int, j: int|
        0 <= i < cols && 0 <= j && (j < r || (j == r && i < c)) ==> #[trigger] tiles[j * cols + i]
            == tile_at(width, height, max, i, j)
}

proof fn lemma_pieces(len: int, max: int, k: int)
    requires
        len >= 0,
        max >= 1,
        k >= 0,
    ensures
        k < pieces(len, max) <==> k * max < len,
        pieces(len, max) >= 0,
{
    let p = pieces(len, max);
    assert(p * max <= len + max - 1 && len + max - 1 < p * max + max && p >= 0) by (nonlinear_arith)
        requires
            p == (len + max - 1) / max,
            max >= 1,
            len >= 0,
    ;
    if k < p {
        assert(k * max + max <= p * max) by (nonlinear_arith)
            requires
                k < p,
                max >= 1,
        ;
    } else {
        assert(k * max >= p * max) by (nonlinear_arith)
            requires
                k >= p,
                max >= 1,
        ;
    }
}

/// Cuts an image into tiles no larger than `max` by `max`, row by row.
pub fn tiles(width: u32, height: u32, max: u32) -> (r: Vec<Tile>)
    requires
        max >= 1,
        4 * (width * height) <= u64::MAX,
    ensures
        is_tiled(
            r@,
            width as int,
            height as int,
            max as int,
            pieces(height as int, max as int),
            0,
        ),
{
    let mut out: Vec<Tile> = Vec::new();
    let ghost w = width as int;
    let ghost h = height as int;
    let ghost m = max as int;
    let ghost cols = pieces(w, m);
    let ghost mut r: int = 0;
    let mut y: u64 = 0;
    assert(0 * m == 0 && 0 * cols == 0) by (nonlinear_arith);
    while y < height as u64
        invariant
            w == width,
            h == height,
            m == max,
            m >= 1,
            4 * (w * h) <= u64::MAX,
            cols == pieces(w, m),
            0 <= r,
            y == r * m,
            y <= h + m,
            r <= pieces(h, m),
            is_tiled(out@, w, h, m, r, 0),
        decreases h + m - y,
    {
        proof {
            lemma_pieces(h, m, r);
            lemma_pieces(w, m, 0);
        }
        let ghost mut c: int = 0;
        let mut x: u64 = 0;
        assert(0 * m == 0) by (nonlinear_arith);
        while x < width as u64
            invariant
                w == width,
                h == height,
                m == max,
                m >= 1,
                4 * (w * h) <= u64::MAX,
                cols == pieces(w, m),
                0 <= r,
                y == r * m,
                y < h,
                0 <= c <= cols,
                x == c * m,
                x <= w + m,
                is_tiled(out@, w, h, m, r, c),
            decreases w + m - x,
        {
            proof {
                lemma_pieces(w, m, c);
                assert(y * w <= 0xffff_ffff * 0xffff_ffff && y * w >= 0) by (nonlinear_arith)
                    requires
                        0 <= y < 0x1_0000_0000,
                        0 <= w < 0x1_0000_0000,
                ;
                // The image's last pixel is before the largest offset.
                assert(y * w + x < w * h) by (nonlinear_arith)
                    requires
                        0 <= y < h,
                        0 <= x < w,
                ;
            }
            let wide: u64 = width as u64 - x;
            let high: u64 = height as u64 - y;
            let n: u64 = max as u64;
            let ghost before = out@;
            let tile = Tile {
                x: x as u32,
                y: y as u32,
                w: if wide < n {
                    wide as u32
                } else {
                    max
                },
                h: if high < n {
                    high as u32
                } else {
                    max
                },
                offset: 4 * (y * (width as u64) + x),
            };
            out.push(tile);
            proof {
                assert(tile == tile_at(w, h, m, c, r));
                assert forall|i: int, j: int|
                    0 <= i < cols && 0 <= j && (j < r || (j == r && i < c + 1)) implies #[trigger] out@[j
                    * cols + i] == tile_at(w, h, m, i, j) by {
                    if j == r && i == c {
                    } else {
                        assert(0 <= j * cols + i && j * cols + i < r * cols + c) by (nonlinear_arith)
                            requires
                                0 <= i < cols,
                                0 <= j,
                                j < r || (j == r && i < c),
                                0 <= c,
                        ;
                        assert(before[j * cols + i] == tile_at(w, h, m, i, j));
                    }
                }
                assert((c + 1) * m == c * m + m) by (nonlinear_arith);
                c = c + 1;
            }
            x = x + n;
        }
        proof {
            lemma_pieces(w, m, c);
            assert(c == cols);
            assert((r + 1) * m == r * m + m) by (nonlinear_arith);
            assert((r + 1) * cols == r * cols + cols) by (nonlinear_arith);
            assert forall|i: int, j: int|
                0 <= i < cols && 0 <= j && (j < r + 1 || (j == r + 1 && i < 0)) implies #[trigger] out@[j
                * cols + i] == tile_at(w, h, m, i, j) by {}
            r = r + 1;
        }
        y = y + max as u64;
    }
    proof {
        lemma_pieces(h, m, r);
    }
    out
}

/// Whether a tile covers the pixel in column `x` of row `y`.
pub open spec fn covers(t: Tile, x: int, y: int) -> bool {
    t.x <= x < t.x + t.w && t.y <= y < t.y + t.h
}

/// Every pixel of the image is in one tile and no other, and no tile is larger than asked for.
pub proof fn law_tiles_cover_once(tiles: Seq<Tile>, width: u32, height: u32, max: u32, x: int, y: int)
    requires
        max >= 1,
        is_tiled(
            tiles,
            width as int,
            height as int,
            max as int,
            pieces(height as int, max as int),
            0,
        ),
        0 <= x < width,
        0 <= y < height,
    ensures
        exists|k: int| 0 <= k < tiles.len() && covers(#[trigger] tiles[k], x, y),
        forall|a: int, b: int|
            0 <= a < tiles.len() && 0 <= b < tiles.len() && covers(#[trigger] tiles[a], x, y)
                && covers(#[trigger] tiles[b], x, y) ==> a == b,
        forall|k: int|
            0 <= k < tiles.len() ==> (#[trigger] tiles[k]).w <= max && tiles[k].h <= max,
{
    let w = width as int;
    let h = height as int;
    let m = max as int;
    let cols = pieces(w, m);
    let rows = pieces(h, m);
    let c = x / m;
    let r = y / m;
    assert(c * m <= x < c * m + m && c >= 0) by (nonlinear_arith)
        requires
            c == x / m,
            m >= 1,
            x >= 0,
    ;
    assert(r * m <= y < r * m + m && r >= 0) by (nonlinear_arith)
        requires
            r == y / m,
            m >= 1,
            y >= 0,
    ;
    lemma_pieces(w, m, c);
    lemma_pieces(h, m, r);
    assert(0 <= r * cols + c < rows * cols) by (nonlinear_arith)
        requires
            0 <= c < cols,
            0 <= r < rows,
    ;
    lemma_tile(w, h, m, c, r);
    assert(tiles[r * cols + c] == tile_at(w, h, m, c, r));
    assert(covers(tiles[r * cols + c], x, y));
    assert forall|k: int| 0 <= k < tiles.len() implies (#[trigger] tiles[k]).w <= max && tiles[k].h
        <= max && (covers(tiles[k], x, y) ==> k == r * cols + c) by {
        let i = k % cols;
        let j = k / cols;
        assert(k == j * cols + i && 0 <= i < cols && 0 <= j < rows) by (nonlinear_arith)
            requires
                0 <= k < rows * cols,
                cols > 0,
                i == k % cols,
                j == k / cols,
        ;
        assert(tiles[j * cols + i] == tile_at(w, h, m, i, j));
        lemma_pieces(w, m, i);
        lemma_pieces(h, m, j);
        lemma_tile(w, h, m, i, j);
        if covers(tiles[k], x, y) {
            assert(i == c) by (nonlinear_arith)
                requires
                    i * m <= x < i * m + m,
                    c * m <= x < c * m + m,
                    m >= 1,
            ;
            assert(j == r) by (nonlinear_arith)
                requires
                    j * m <= y < j * m + m,
                    r * m <= y < r * m + m,
                    m >= 1,
            ;
        }
    }
}

/// The numbers of a tile are in range.
proof fn lemma_tile(w: int, h: int, m: int, c: int, r: int)
    requires
        0 <= w < 0x1_0000_0000,
        0 <= h < 0x1_0000_0000,
        1 <= m < 0x1_0000_0000,
        0 <= c,
        0 <= r,
        c * m < w,
        r * m < h,
    ensures
        ({
            let t = tile_at(w, h, m, c, r);
            &&& t.x == c * m
            &&& t.y == r * m
            &&& t.w == smaller(w - c * m, m)
            &&& t.h == smaller(h - r * m, m)
        }),
{
    assert(c * m >= 0 && r * m >= 0) by (nonlinear_arith)
        requires
            0 <= c,
            0 <= r,
            1 <= m,
    ;
}

/// Vertices from `start` up to `end` that are drawn with one texture.
#[derive(Debug, Clone, Copy, PartialEq, Eq, Structural)]
pub struct Draw {
    pub texture: usize,
    pub start: u32,
    pub end: u32,
}

/// The textures of quads, in the order they are drawn.
pub open spec fn quad_textures(draws: Seq<Draw>) -> Seq<usize>
    decreases draws.len(),
{
    if draws.len() == 0 {
        Seq::empty()
    } else {
        let d = draws.last();
        quad_textures(draws.drop_last()) + Seq::new(
            ((d.end - d.start) / 6) as nat,
            |i: int| d.texture,
        )
    }
}

/// The draws follow one another from the first vertex up to the `n`-th, each of whole quads and
/// with another texture than the one before.
pub open spec fn is_batched(draws: Seq<Draw>, n: int) -> bool {
    &&& draws.len() == 0 ==> n == 0
    &&& draws.len() > 0 ==> draws[0].start == 0 && draws.last().end == n
    &&& forall|i: int|
        0 <= i < draws.len() ==> (#[trigger] draws[i]).start < draws[i].end && (draws[i].end
            - draws[i].start) % 6 == 0
    &&& forall|i: int, j: int|
        0 <= i < draws.len() && j == i + 1 && j < draws.len() ==> (#[trigger] draws[j]).start == (
        #[trigger] draws[i]).end && draws[j].texture != draws[i].texture
}

/// Adds the draw of a quad, whose six vertices come behind the `n` before. Quads with the same
/// texture in a row are drawn at once.
pub fn add_quad(draws: &mut Vec<Draw>, texture: usize, n: u32)
    requires
        is_batched(old(draws)@, n as int),
        n <= u32::MAX - 6,
    ensures
        is_batched(final(draws)@, n + 6),
        quad_textures(final(draws)@) == quad_textures(old(draws)@).push(texture),
{
    let ghost before = draws@;
    let k: usize = draws.len();
    if k > 0 && draws[k - 1].texture == texture && draws[k - 1].end == n {
        let d = Draw { texture, start: draws[k - 1].start, end: n + 6 };
        draws.set(k - 1, d);
        proof {
            let old_d = before[k - 1];
            assert(draws@.drop_last() =~= before.drop_last());
            let a = (old_d.end - old_d.start) / 6;
            assert((d.end - d.start) / 6 == a + 1);
            assert(quad_textures(draws@) =~= quad_textures(before).push(texture));
            assert forall|i: int, j: int| 0 <= i < draws@.len() && j == i + 1 && j < draws@.len() implies (
            #[trigger] draws@[j]).start == (#[trigger] draws@[i]).end && draws@[j].texture
                != draws@[i].texture by {
                assert(before[j].start == before[i].end);
            }
        }
    } else {
        let d = Draw { texture, start: n, end: n + 6 };
        draws.push(d);
        proof {
            assert(draws@.drop_last() =~= before);
            assert((d.end - d.start) / 6 == 1);
            assert(quad_textures(draws@) =~= quad_textures(before).push(texture));
            assert forall|i: int, j: int| 0 <= i < draws@.len() && j == i + 1 && j < draws@.len() implies (
            #[trigger] draws@[j]).start == (#[trigger] draws@[i]).end && draws@[j].texture
                != draws@[i].texture by {
                if j < before.len() {
                    assert(before[j].start == before[i].end);
                } else {
                    assert(before.last() == before[k - 1]);
                }
            }
        }
    }
}

/// How opaque the shadow of a text is whose colour has the given opacity: three quarters.
pub fn shadow_alpha(a: u8) -> (r: u8)
    ensures
        r == a * 3 / 4,
{
    (a as u32 * 3 / 4) as u8
}

/// A tile lies within the image, is not empty, and knows where its first pixel stands in the image's
/// bytes: four for every pixel before it.
pub proof fn law_tiles_know_their_bytes(tiles: Seq<Tile>, width: u32, height: u32, max: u32, k: int)
    requires
        max >= 1,
        is_tiled(
            tiles,
            width as int,
            height as int,
            max as int,
            pieces(height as int, max as int),
            0,
        ),
        4 * (width * height) <= u64::MAX,
        0 <= k < tiles.len(),
    ensures
        ({
            let t = tiles[k];
            &&& t.offset == 4 * (t.y * width + t.x)
            &&& t.w >= 1 && t.x + t.w <= width
            &&& t.h >= 1 && t.y + t.h <= height
            &&& t.w < max ==> t.x + t.w == width
            &&& t.h < max ==> t.y + t.h == height
        }),
{
    let w = width as int;
    let h = height as int;
    let m = max as int;
    let cols = pieces(w, m);
    let rows = pieces(h, m);
    lemma_pieces(w, m, 0);
    lemma_pieces(h, m, 0);
    assert(cols > 0 && rows > 0) by (nonlinear_arith)
        requires
            0 <= k < rows * cols,
            cols >= 0,
            rows >= 0,
    ;
    let i = k % cols;
    let j = k / cols;
    assert(k == j * cols + i && 0 <= i < cols && 0 <= j < rows) by (nonlinear_arith)
        requires
            0 <= k < rows * cols,
            cols > 0,
            i == k % cols,
            j == k / cols,
    ;
    assert(tiles[j * cols + i] == tile_at(w, h, m, i, j));
    lemma_pieces(w, m, i);
    lemma_pieces(h, m, j);
    lemma_tile(w, h, m, i, j);
    let x = i * m;
    let y = j * m;
    assert(0 <= y * w + x <= h * w && h * w == w * h) by (nonlinear_arith)
        requires
            0 <= x < w,
            0 <= y < h,
    ;
}

/// A run of draws tells the texture of every quad: so many of its texture as it has sixes of vertices.
pub proof fn law_draws_tell_the_textures(draws: Seq<Draw>, d: Draw)
    requires
        d.start < d.end,
        (d.end - d.start) % 6 == 0,
    ensures
        quad_textures(draws.push(d)).len() == quad_textures(draws).len() + (d.end - d.start) / 6,
        forall|i: int|
            0 <= i < quad_textures(draws).len() ==> #[trigger] quad_textures(draws.push(d))[i]
                == quad_textures(draws)[i],
        forall|i: int|
            quad_textures(draws).len() <= i < quad_textures(draws.push(d)).len()
                ==> #[trigger] quad_textures(draws.push(d))[i] == d.texture,
{
    assert(draws.push(d).drop_last() =~= draws);
}

} // verus!
