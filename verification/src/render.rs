//! The tiled image driver: which pixels a tile covers, where a pixel lives in
//! the row-major buffer, and the walk over all tiles that gives every pixel of
//! the image its colour exactly once.

use vstd::prelude::*;

verus! {

/// Width of a tile, in pixels.
pub const TILE_WIDTH: usize = 8;

/// Height of a tile, in pixels.
pub const TILE_HEIGHT: usize = 8;

/// A tile by its column `i` and row `j` in the grid of tiles.
#[derive(Clone, Copy, Debug, PartialEq, Eq)]
pub struct Tile {
    pub i: usize,
    pub j: usize,
}

/// A pixel by its column `x` and row `y`.
#[derive(Clone, Copy, Debug, PartialEq, Eq)]
pub struct Pixel {
    pub x: usize,
    pub y: usize,
}

impl Pixel {
    /// The pixel lies on an image of the given size.
    pub open spec fn on_image(self, width: usize, height: usize) -> bool {
        self.x < width && self.y < height
    }

    /// Position of the pixel in a row-major buffer of rows `width` long.
    pub open spec fn index(self, width: usize) -> int {
        self.y * width + self.x
    }
}

impl Tile {
    /// The tile covers columns `[i * TILE_WIDTH, i * TILE_WIDTH + TILE_WIDTH)`
    /// and rows `[j * TILE_HEIGHT, j * TILE_HEIGHT + TILE_HEIGHT)`.
    pub open spec fn covers(self, p: Pixel) -> bool {
        &&& self.i * TILE_WIDTH <= p.x < self.i * TILE_WIDTH + TILE_WIDTH
        &&& self.j * TILE_HEIGHT <= p.y < self.j * TILE_HEIGHT + TILE_HEIGHT
    }
}

/// `resolve` may be called on every pixel of the image.
pub open spec fn resolves_image<C, F: Fn(Pixel) -> C>(
    resolve: &F,
    width: usize,
    height: usize,
) -> bool {
    forall|p: Pixel| p.on_image(width, height) ==> #[trigger] call_requires(resolve, (p,))
}

/// `image` is a rendering of `resolve`: a row-major buffer of `width * height`
/// colours in which every pixel holds a colour that `resolve` returns for it.
pub open spec fn rendered<C, F: Fn(Pixel) -> C>(
    resolve: &F,
    width: usize,
    height: usize,
    image: Seq<C>,
) -> bool {
    &&& image.len() == width * height
    &&& forall|p: Pixel|
        p.on_image(width, height) ==> call_ensures(resolve, (p,), #[trigger] image[p.index(width)])
}

/// `resolve` returns one colour for each pixel of the image, whenever it is
/// called.
pub open spec fn deterministic<C, F: Fn(Pixel) -> C>(
    resolve: &F,
    width: usize,
    height: usize,
) -> bool {
    forall|p: Pixel, c: C, d: C|
        p.on_image(width, height) && #[trigger] call_ensures(resolve, (p,), c)
            && #[trigger] call_ensures(resolve, (p,), d) ==> c == d
}

/// The buffer indices of a sequence of pixels, in the same order.
pub open spec fn indices(pixels: Seq<Pixel>, width: usize) -> Seq<int> {
    pixels.map_values(|p: Pixel| p.index(width))
}

/// The number of pixels that a tile covers.
pub open spec fn tile_area() -> nat {
    (TILE_WIDTH * TILE_HEIGHT) as nat
}

/// The pixels of the image met on the first `steps` steps of the walk over
/// tile `t`, in order. The walk goes through the rows of the tile from the
/// top, and from left to right through each row; a step that leaves the image
/// meets no pixel.
pub open spec fn tile_walk(t: Tile, width: usize, height: usize, steps: nat) -> Seq<Pixel>
    decreases steps,
{
    if steps == 0 {
        Seq::empty()
    } else {
        let k = (steps - 1) as nat;
        let x = t.i * TILE_WIDTH + k % (TILE_WIDTH as nat);
        let y = t.j * TILE_HEIGHT + k / (TILE_WIDTH as nat);
        let before = tile_walk(t, width, height, k);
        if x < width && y < height {
            before.push(Pixel { x: x as usize, y: y as usize })
        } else {
            before
        }
    }
}

/// The pixels met on the walks over the first `tiles` tiles of the image, in
/// order. The tiles are taken row by row from the top, and from left to
/// right in each row.
pub open spec fn image_walk(width: usize, height: usize, tiles: nat) -> Seq<Pixel>
    decreases tiles,
{
    if tiles == 0 {
        Seq::empty()
    } else {
        let k = (tiles - 1) as nat;
        let across = tiles_to_cover(width as nat, TILE_WIDTH as nat);
        let t = Tile { i: (k % across) as usize, j: (k / across) as usize };
        image_walk(width, height, k) + tile_walk(t, width, height, tile_area())
    }
}

/// Row-major indexing sends the pixels of an image into the buffer.
pub proof fn lemma_index_in_buffer(width: usize, height: usize, p: Pixel)
    requires
        p.on_image(width, height),
    ensures
        0 <= p.index(width) < width * height,
{
    assert(p.y * width + p.x < width * height) by (nonlinear_arith)
        requires
            p.x < width,
            p.y < height,
    ;
}

/// Two pixels of one image that share a buffer index are the same pixel.
pub proof fn lemma_index_injective(width: usize, p: Pixel, q: Pixel)
    requires
        p.x < width,
        q.x < width,
        p.index(width) == q.index(width),
    ensures
        p == q,
{
    assert(p.y == q.y) by (nonlinear_arith)
        requires
            p.x < width,
            q.x < width,
            p.y * width + p.x == q.y * width + q.x,
    ;
}

/// Every buffer index below `width * height` belongs to a pixel of the image:
/// the one in column `k % width` of row `k / width`.
pub proof fn lemma_index_onto(width: usize, height: usize, k: int) -> (p: Pixel)
    requires
        0 <= k < width * height,
    ensures
        p.on_image(width, height),
        p.index(width) == k,
        p.x == k % (width as int),
        p.y == k / (width as int),
{
    let w = width as int;
    assert(w > 0) by (nonlinear_arith)
        requires
            0 <= k < w * height,
            w >= 0,
    ;
    vstd::arithmetic::div_mod::lemma_fundamental_div_mod(k, w);
    vstd::arithmetic::div_mod::lemma_mod_bound(k, w);
    let x = k % w;
    let y = k / w;
    assert(0 <= y < height) by (nonlinear_arith)
        requires
            0 <= k < w * height,
            w > 0,
            k == w * y + x,
            0 <= x < w,
    ;
    assert(y * w == w * y) by (nonlinear_arith);
    Pixel { x: x as usize, y: y as usize }
}

/// Resolves one pixel into the buffer. A pixel off the image, as a tile that
/// overhangs the edge produces, is skipped: nothing is written and nothing
/// fails. Returns the pixels written: `p` alone, or none.
pub fn pixel<C, F: Fn(Pixel) -> C>(
    p: Pixel,
    width: usize,
    height: usize,
    resolve: &F,
    buf: &mut Vec<C>,
) -> (written: Ghost<Seq<Pixel>>)
    requires
        old(buf).len() == width * height,
        resolves_image(resolve, width, height),
    ensures
        final(buf).len() == old(buf).len(),
        !p.on_image(width, height) ==> written@ == Seq::<Pixel>::empty() && final(buf)@ == old(
            buf,
        )@,
        p.on_image(width, height) ==> {
            &&& written@ == Seq::<Pixel>::empty().push(p)
            &&& call_ensures(resolve, (p,), final(buf)@[p.index(width)])
            &&& final(buf)@ == old(buf)@.update(p.index(width), final(buf)@[p.index(width)])
        },
{
    if p.x >= width || p.y >= height {
        return Ghost(Seq::<Pixel>::empty());
    }
    proof {
        lemma_index_in_buffer(width, height, p);
    }
    let index: usize = p.y * width + p.x;
    let color = resolve(p);
    buf.set(index, color);
    Ghost(Seq::<Pixel>::empty().push(p))
}

/// Where each pixel of the image was written once and no other pixel was,
/// each buffer index below `width * height` was written once and no other
/// index was: `width * height` writes in all.
pub proof fn lemma_each_index_written_once(width: usize, height: usize, written: Seq<Pixel>)
    requires
        written.no_duplicates(),
        forall|p: Pixel| #[trigger] written.contains(p) <==> p.on_image(width, height),
    ensures
        indices(written, width).no_duplicates(),
        forall|k: int| #[trigger] indices(written, width).contains(k) <==> 0 <= k < width * height,
        written.len() == width * height,
{
    let at = indices(written, width);
    assert forall|a: int, b: int| 0 <= a < at.len() && 0 <= b < at.len() && a != b implies at[a]
        != at[b] by {
        assert(written.contains(written[a]));
        assert(written.contains(written[b]));
        if at[a] == at[b] {
            lemma_index_injective(width, written[a], written[b]);
        }
    }
    assert forall|k: int| #[trigger] at.contains(k) <==> 0 <= k < width * height by {
        if at.contains(k) {
            let n = choose|n: int| 0 <= n < at.len() && at[n] == k;
            assert(written.contains(written[n]));
            lemma_index_in_buffer(width, height, written[n]);
        }
        if 0 <= k < width * height {
            let p = lemma_index_onto(width, height, k);
            assert(written.contains(p));
            let n = choose|n: int| 0 <= n < written.len() && written[n] == p;
            assert(at[n] == k);
        }
    }
    at.unique_seq_to_set();
    assert(at.to_set() =~= vstd::set_lib::set_int_range(0, width * height));
    vstd::set_lib::lemma_int_range(0, width * height);
}

/// Rendering adds no choice of its own: two renderings of one image by a
/// resolver that returns one colour per pixel are the same buffer.
pub proof fn lemma_rendering_unique<C, F: Fn(Pixel) -> C>(
    resolve: &F,
    width: usize,
    height: usize,
    first: Seq<C>,
    second: Seq<C>,
)
    requires
        deterministic(resolve, width, height),
        rendered(resolve, width, height, first),
        rendered(resolve, width, height, second),
    ensures
        first == second,
{
    assert forall|k: int| 0 <= k < first.len() implies first[k] == second[k] by {
        let p = lemma_index_onto(width, height, k);
        assert(call_ensures(resolve, (p,), first[p.index(width)]));
        assert(call_ensures(resolve, (p,), second[p.index(width)]));
    }
    assert(first =~= second);
}

/// Appending an element that a duplicate-free sequence lacks keeps it
/// duplicate-free, and adds that element alone.
proof fn lemma_push_fresh<A>(s: Seq<A>, a: A)
    requires
        s.no_duplicates(),
        !s.contains(a),
    ensures
        s.push(a).no_duplicates(),
        forall|b: A| #[trigger] s.push(a).contains(b) <==> b == a || s.contains(b),
{
    assert forall|b: A| #[trigger] s.push(a).contains(b) <==> b == a || s.contains(b) by {
        vstd::seq_lib::lemma_seq_contains_after_push(s, a, b);
    }
}

/// The walk over a tile that begins right of the image or below it meets no
/// pixel.
proof fn lemma_tile_walk_off_image(t: Tile, width: usize, height: usize, steps: nat)
    requires
        t.i * TILE_WIDTH >= width || t.j * TILE_HEIGHT >= height,
    ensures
        tile_walk(t, width, height, steps) == Seq::<Pixel>::empty(),
    decreases steps,
{
    if steps > 0 {
        lemma_tile_walk_off_image(t, width, height, (steps - 1) as nat);
    }
}

/// Within tile `t`, pixel `p` comes before column `tx` of row `ty` of the tile.
spec fn before_in_tile(t: Tile, p: Pixel, ty: int, tx: int) -> bool {
    &&& t.covers(p)
    &&& p.y < t.j * TILE_HEIGHT + ty || (p.y == t.j * TILE_HEIGHT + ty && p.x < t.i * TILE_WIDTH
        + tx)
}

/// Resolves the pixels of one tile, row by row. Where the tile overhangs the
/// image, the pixels off the image are skipped. Returns the pixels written,
/// in the order of the walk: each pixel of the image that the tile covers,
/// once.
pub fn tile<C, F: Fn(Pixel) -> C>(
    t: Tile,
    width: usize,
    height: usize,
    resolve: &F,
    buf: &mut Vec<C>,
) -> (written: Ghost<Seq<Pixel>>)
    requires
        old(buf).len() == width * height,
        resolves_image(resolve, width, height),
    ensures
        final(buf).len() == old(buf).len(),
        written@ == tile_walk(t, width, height, tile_area()),
        written@.no_duplicates(),
        forall|p: Pixel| #[trigger]
            written@.contains(p) <==> p.on_image(width, height) && t.covers(p),
        forall|p: Pixel|
            p.on_image(width, height) && t.covers(p) ==> call_ensures(
                resolve,
                (p,),
                #[trigger] final(buf)@[p.index(width)],
            ),
        forall|p: Pixel|
            p.on_image(width, height) && !t.covers(p) ==> #[trigger] final(buf)@[p.index(width)]
                == old(buf)@[p.index(width)],
{
    let (offset_x, offset_y) = match (t.i.checked_mul(TILE_WIDTH), t.j.checked_mul(TILE_HEIGHT)) {
        (Some(offset_x), Some(offset_y)) => (offset_x, offset_y),
        _ => {
            // The tile starts beyond the largest image: it covers no pixel.
            proof {
                lemma_tile_walk_off_image(t, width, height, tile_area());
            }
            return Ghost(Seq::empty());
        },
    };
    let ghost mut log: Seq<Pixel> = Seq::empty();
    for ty in 0..TILE_HEIGHT
        invariant
            offset_x == t.i * TILE_WIDTH,
            offset_y == t.j * TILE_HEIGHT,
            buf.len() == width * height,
            resolves_image(resolve, width, height),
            log == tile_walk(t, width, height, (ty * TILE_WIDTH) as nat),
            log.no_duplicates(),
            forall|p: Pixel| #[trigger]
                log.contains(p) <==> p.on_image(width, height) && before_in_tile(t, p, ty as int, 0),
            forall|p: Pixel|
                p.on_image(width, height) && before_in_tile(t, p, ty as int, 0)
                    ==> call_ensures(resolve, (p,), #[trigger] buf@[p.index(width)]),
            forall|p: Pixel|
                p.on_image(width, height) && !before_in_tile(t, p, ty as int, 0)
                    ==> #[trigger] buf@[p.index(width)] == old(buf)@[p.index(width)],
    {
        let y = offset_y + ty;
        for tx in 0..TILE_WIDTH
            invariant
                offset_x == t.i * TILE_WIDTH,
                y == t.j * TILE_HEIGHT + ty,
                ty < TILE_HEIGHT,
                buf.len() == width * height,
                resolves_image(resolve, width, height),
                log == tile_walk(t, width, height, (ty * TILE_WIDTH + tx) as nat),
                log.no_duplicates(),
                forall|p: Pixel| #[trigger]
                    log.contains(p) <==> p.on_image(width, height) && before_in_tile(
                        t,
                        p,
                        ty as int,
                        tx as int,
                    ),
                forall|p: Pixel|
                    p.on_image(width, height) && before_in_tile(t, p, ty as int, tx as int)
                        ==> call_ensures(resolve, (p,), #[trigger] buf@[p.index(width)]),
                forall|p: Pixel|
                    p.on_image(width, height) && !before_in_tile(t, p, ty as int, tx as int)
                        ==> #[trigger] buf@[p.index(width)] == old(buf)@[p.index(width)],
        {
            let x = offset_x + tx;
            let here = Pixel { x, y };
            let ghost before = buf@;
            let one = pixel(here, width, height, resolve, buf);
            proof {
                if here.on_image(width, height) {
                    lemma_index_in_buffer(width, height, here);
                    assert forall|p: Pixel|
                        p.on_image(width, height) && p != here implies #[trigger] buf@[p.index(
                        width,
                    )] == before[p.index(width)] by {
                        lemma_index_in_buffer(width, height, p);
                        if p.index(width) == here.index(width) {
                            lemma_index_injective(width, p, here);
                        }
                    }
                    lemma_push_fresh(log, here);
                    log = log.push(here);
                }
            }
        }
    }
    Ghost(log)
}

/// The number of tiles of `size` pixels that it takes to cover `extent`
/// pixels: `extent / size`, rounded up.
pub open spec fn tiles_to_cover(extent: nat, size: nat) -> nat {
    if extent % size == 0 {
        extent / size
    } else {
        extent / size + 1
    }
}

/// Counts the tiles along one side of the image; the last of them may
/// overhang the edge. It is the least count whose tiles reach `extent`.
pub fn tile_count(extent: usize, size: usize) -> (count: usize)
    requires
        size > 0,
    ensures
        count == tiles_to_cover(extent as nat, size as nat),
        count * size >= extent,
        count > 0 ==> (count - 1) * size < extent,
{
    let full = extent / size;
    proof {
        vstd::arithmetic::div_mod::lemma_fundamental_div_mod(extent as int, size as int);
        assert(size * full == full * size) by (nonlinear_arith);
        assert(full <= full * size) by (nonlinear_arith)
            requires
                size > 0,
        ;
        assert((full + 1) * size == full * size + size) by (nonlinear_arith);
        assert((full - 1) * size == full * size - size) by (nonlinear_arith);
    }
    full + if extent % size > 0 {
        1
    } else {
        0
    }
}

/// Pixel `p` lies in a tile that comes before tile `i` of tile row `j`.
spec fn before_in_grid(p: Pixel, j: int, i: int) -> bool {
    p.y / TILE_HEIGHT < j || (p.y / TILE_HEIGHT == j && p.x / TILE_WIDTH < i)
}

/// Renders the image: walks the grid of `ceil(width / TILE_WIDTH)` by
/// `ceil(height / TILE_HEIGHT)` tiles row by row and resolves each tile.
/// Afterwards every pixel of the image holds what `resolve` returned for it.
/// Returns the pixels written, in the order of the walk: each pixel of the
/// image, once, and so each index of the buffer, once.
pub fn mandelbrot<C, F: Fn(Pixel) -> C>(
    width: usize,
    height: usize,
    resolve: &F,
    buf: &mut Vec<C>,
) -> (written: Ghost<Seq<Pixel>>)
    requires
        old(buf).len() == width * height,
        resolves_image(resolve, width, height),
    ensures
        rendered(resolve, width, height, final(buf)@),
        written@ == image_walk(
            width,
            height,
            tiles_to_cover(width as nat, TILE_WIDTH as nat) * tiles_to_cover(
                height as nat,
                TILE_HEIGHT as nat,
            ),
        ),
        written@.no_duplicates(),
        forall|p: Pixel| #[trigger] written@.contains(p) <==> p.on_image(width, height),
        written@.len() == width * height,
        indices(written@, width).no_duplicates(),
        forall|k: int| #[trigger]
            indices(written@, width).contains(k) <==> 0 <= k < width * height,
{
    let width_in_tiles = tile_count(width, TILE_WIDTH);
    let height_in_tiles = tile_count(height, TILE_HEIGHT);
    let ghost mut log: Seq<Pixel> = Seq::empty();
    for j in 0..height_in_tiles
        invariant
            width_in_tiles == tiles_to_cover(width as nat, TILE_WIDTH as nat),
            height_in_tiles == tiles_to_cover(height as nat, TILE_HEIGHT as nat),
            width_in_tiles * TILE_WIDTH >= width,
            height_in_tiles * TILE_HEIGHT >= height,
            buf.len() == width * height,
            resolves_image(resolve, width, height),
            log == image_walk(width, height, (j * width_in_tiles) as nat),
            log.no_duplicates(),
            forall|p: Pixel| #[trigger]
                log.contains(p) <==> p.on_image(width, height) && before_in_grid(p, j as int, 0),
            forall|p: Pixel|
                p.on_image(width, height) && before_in_grid(p, j as int, 0) ==> call_ensures(
                    resolve,
                    (p,),
                    #[trigger] buf@[p.index(width)],
                ),
    {
        for i in 0..width_in_tiles
            invariant
                width_in_tiles == tiles_to_cover(width as nat, TILE_WIDTH as nat),
                width_in_tiles * TILE_WIDTH >= width,
                buf.len() == width * height,
                resolves_image(resolve, width, height),
                log == image_walk(width, height, (j * width_in_tiles + i) as nat),
                log.no_duplicates(),
                forall|p: Pixel| #[trigger]
                    log.contains(p) <==> p.on_image(width, height) && before_in_grid(
                        p,
                        j as int,
                        i as int,
                    ),
                forall|p: Pixel|
                    p.on_image(width, height) && before_in_grid(p, j as int, i as int)
                        ==> call_ensures(resolve, (p,), #[trigger] buf@[p.index(width)]),
        {
            let here = Tile { i, j };
            let part = tile(here, width, height, resolve, buf);
            proof {
                vstd::arithmetic::div_mod::lemma_fundamental_div_mod_converse(
                    j * width_in_tiles + i,
                    width_in_tiles as int,
                    j as int,
                    i as int,
                );
                assert forall|p: Pixel| here.covers(p) <==> p.y / TILE_HEIGHT == j && p.x
                    / TILE_WIDTH == i by {}
                assert forall|a: int, b: int|
                    0 <= a < log.len() && 0 <= b < part@.len() implies log[a] != part@[b] by {
                    assert(log.contains(log[a]));
                    assert(part@.contains(part@[b]));
                }
                vstd::seq_lib::lemma_no_dup_in_concat(log, part@);
                assert forall|p: Pixel| #[trigger]
                    (log + part@).contains(p) <==> log.contains(p) || part@.contains(p) by {
                    vstd::seq_lib::lemma_seq_concat_contains_all_elements(log, part@, p);
                }
                log = log + part@;
            }
        }
        proof {
            assert((j + 1) * width_in_tiles == j * width_in_tiles + width_in_tiles)
                by (nonlinear_arith);
        }
    }
    proof {
        assert(height_in_tiles * width_in_tiles == width_in_tiles * height_in_tiles)
            by (nonlinear_arith);
        lemma_each_index_written_once(width, height, log);
    }
    Ghost(log)
}

} // verus!
