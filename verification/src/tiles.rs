//! Splitting a buffer into a grid of equal tiles, walking the tiles with a
//! cursor, and joining them back into one buffer.

use vstd::prelude::*;
use vstd::arithmetic::div_mod::{lemma_fundamental_div_mod, lemma_fundamental_div_mod_converse};
use crate::buffer::{
    lemma_from_fn_at,
    lemma_from_fn_ext,
    lemma_from_fn_self,
    PixelBuffer,
    Raster,
};
use crate::errors::PixelError;

verus! {

/// Side of a tile along an axis of length `dim`: `tile_size`, or the whole
/// axis when it is shorter than one tile.
pub open spec fn tile_extent(dim: nat, tile_size: nat) -> nat {
    if dim / tile_size == 0 {
        dim
    } else {
        tile_size
    }
}

/// Number of tiles along an axis of length `dim`: the whole tiles that fit,
/// or one when none does.
pub open spec fn tile_count(dim: nat, tile_size: nat) -> nat {
    if dim / tile_size == 0 {
        1
    } else {
        dim / tile_size
    }
}

/// The tiles of `img`, row by row. A remainder that fills no whole tile is
/// left out.
pub open spec fn split<T>(img: Raster<T>, tile_size: nat) -> Seq<Raster<T>> {
    let th = tile_extent(img.height, tile_size);
    let tw = tile_extent(img.width, tile_size);
    let gr = tile_count(img.height, tile_size);
    let gc = tile_count(img.width, tile_size);
    Seq::new(
        gr * gc,
        |n: int| img.crop(((n / gc as int) * th) as nat, ((n % gc as int) * tw) as nat, th, tw),
    )
}

/// The tiles `start .. start + count` joined left to right; `None` when two
/// neighbours do not fit.
pub open spec fn join_row<T>(tiles: Seq<Raster<T>>, start: int, count: nat) -> Option<Raster<T>>
    decreases count,
{
    if count <= 1 {
        Some(tiles[start])
    } else {
        match join_row(tiles, start, (count - 1) as nat) {
            Some(left) => left.concat_cols(tiles[start + count - 1]),
            None => None,
        }
    }
}

/// The first `rows` grid rows of `cols` tiles each, every row joined left to
/// right and the rows joined top to bottom; `None` when any join does not fit.
pub open spec fn join_grid<T>(tiles: Seq<Raster<T>>, rows: nat, cols: nat) -> Option<Raster<T>>
    decreases rows,
{
    if rows <= 1 {
        join_row(tiles, 0, cols)
    } else {
        match join_grid(tiles, (rows - 1) as nat, cols) {
            Some(top) => match join_row(tiles, (rows - 1) * cols, cols) {
                Some(line) => top.concat_rows(line),
                None => None,
            },
            None => None,
        }
    }
}

/// The contents of a list of buffers.
pub open spec fn rasters<T>(tiles: Seq<PixelBuffer<T>>) -> Seq<Raster<T>> {
    tiles.map_values(|b: PixelBuffer<T>| b@)
}

/// Once a prefix of a row fails to join, the whole row does.
pub proof fn lemma_join_row_fails<T>(tiles: Seq<Raster<T>>, start: int, n: nat, m: nat)
    requires
        n <= m,
        join_row(tiles, start, n) is None,
    ensures
        join_row(tiles, start, m) is None,
    decreases m,
{
    if n < m {
        lemma_join_row_fails(tiles, start, n, (m - 1) as nat);
    }
}

/// Once a prefix of the grid fails to join, the whole grid does.
pub proof fn lemma_join_grid_fails<T>(tiles: Seq<Raster<T>>, n: nat, m: nat, cols: nat)
    requires
        1 <= n <= m,
        join_grid(tiles, n, cols) is None,
    ensures
        join_grid(tiles, m, cols) is None,
    decreases m,
{
    if n < m {
        lemma_join_grid_fails(tiles, n, (m - 1) as nat, cols);
    }
}

/// Whole tiles never reach past the axis they were counted on.
pub proof fn lemma_tiles_fit(dim: nat, tile_size: nat, i: int)
    requires
        tile_size > 0,
        0 <= i < tile_count(dim, tile_size),
    ensures
        0 <= i * tile_extent(dim, tile_size),
        (i + 1) * tile_extent(dim, tile_size) <= dim,
        i * tile_extent(dim, tile_size) + tile_extent(dim, tile_size) <= dim,
        dim % tile_size == 0 ==> tile_count(dim, tile_size) * tile_extent(dim, tile_size) == dim,
{
    let n = dim as int / tile_size as int;
    lemma_fundamental_div_mod(dim as int, tile_size as int);
    if n == 0 {
        assert(i == 0);
        assert((i + 1) * tile_extent(dim, tile_size) == dim) by (nonlinear_arith)
            requires
                i == 0,
                tile_extent(dim, tile_size) == dim,
        ;
        assert(i * tile_extent(dim, tile_size) == 0) by (nonlinear_arith)
            requires
                i == 0,
        ;
        assert(tile_count(dim, tile_size) * tile_extent(dim, tile_size) == dim)
            by (nonlinear_arith)
            requires
                tile_count(dim, tile_size) == 1,
                tile_extent(dim, tile_size) == dim,
        ;
    } else {
        let ts = tile_size as int;
        assert(0 <= i * ts && (i + 1) * ts <= n * ts && (i + 1) * ts == i * ts + ts && n * ts
            == ts * n) by (nonlinear_arith)
            requires
                0 <= i < n,
                ts > 0,
        ;
    }
}

/// Two windows of `img` that share their rows and meet at a column join into
/// the window that spans both.
pub proof fn lemma_crop_concat_cols<T>(img: Raster<T>, r0: nat, c0: nat, h: nat, w1: nat, w2: nat)
    requires
        w1 + w2 <= usize::MAX,
    ensures
        img.crop(r0, c0, h, w1).concat_cols(img.crop(r0, c0 + w1, h, w2)) == Some(
            img.crop(r0, c0, h, w1 + w2),
        ),
{
    let a = img.crop(r0, c0, h, w1);
    let b = img.crop(r0, c0 + w1, h, w2);
    let f = |r: int, q: int, k: int|
        if q < a.width {
            a.at(r, q, k)
        } else {
            b.at(r, q - a.width, k)
        };
    let g = |r: int, q: int, k: int| img.at(r0 + r, c0 + q, k);
    assert forall|r: int, q: int, k: int|
        0 <= r < h && 0 <= q < w1 + w2 && 0 <= k < img.depth() implies #[trigger] f(r, q, k) == g(
        r,
        q,
        k,
    ) by {
        if q < w1 {
            lemma_from_fn_at(
                h,
                w1,
                img.channels,
                |r: int, q: int, k: int| img.at(r0 + r, c0 + q, k),
                r,
                q,
                k,
            );
        } else {
            lemma_from_fn_at(
                h,
                w2,
                img.channels,
                |r: int, q: int, k: int| img.at(r0 + r, c0 + w1 + q, k),
                r,
                q - w1,
                k,
            );
        }
    }
    lemma_from_fn_ext(h, w1 + w2, img.channels, f, g);
}

/// Two windows of `img` that share their columns and meet at a row join into
/// the window that spans both.
pub proof fn lemma_crop_concat_rows<T>(img: Raster<T>, r0: nat, c0: nat, h1: nat, h2: nat, w: nat)
    requires
        h1 + h2 <= usize::MAX,
    ensures
        img.crop(r0, c0, h1, w).concat_rows(img.crop(r0 + h1, c0, h2, w)) == Some(
            img.crop(r0, c0, h1 + h2, w),
        ),
{
    let a = img.crop(r0, c0, h1, w);
    let b = img.crop(r0 + h1, c0, h2, w);
    let f = |r: int, q: int, k: int|
        if r < a.height {
            a.at(r, q, k)
        } else {
            b.at(r - a.height, q, k)
        };
    let g = |r: int, q: int, k: int| img.at(r0 + r, c0 + q, k);
    assert forall|r: int, q: int, k: int|
        0 <= r < h1 + h2 && 0 <= q < w && 0 <= k < img.depth() implies #[trigger] f(r, q, k) == g(
        r,
        q,
        k,
    ) by {
        if r < h1 {
            lemma_from_fn_at(
                h1,
                w,
                img.channels,
                |r: int, q: int, k: int| img.at(r0 + r, c0 + q, k),
                r,
                q,
                k,
            );
        } else {
            lemma_from_fn_at(
                h2,
                w,
                img.channels,
                |r: int, q: int, k: int| img.at(r0 + h1 + r, c0 + q, k),
                r - h1,
                q,
                k,
            );
        }
    }
    lemma_from_fn_ext(h1 + h2, w, img.channels, f, g);
}

/// The window that covers a whole well-formed buffer is the buffer.
pub proof fn lemma_crop_whole<T>(img: Raster<T>)
    requires
        img.wf(),
    ensures
        img.crop(0, 0, img.height, img.width) == img,
{
    lemma_from_fn_self(img);
    lemma_from_fn_ext(
        img.height,
        img.width,
        img.channels,
        |r: int, q: int, k: int| img.at(0 + r, 0 + q, k),
        |r: int, q: int, k: int| img.at(r, q, k),
    );
}

/// The first `n` tiles of grid row `i` join into the window they cover.
pub proof fn lemma_join_split_row<T>(img: Raster<T>, tile_size: nat, i: nat, n: nat)
    requires
        tile_size > 0,
        img.width <= usize::MAX,
        i < tile_count(img.height, tile_size),
        1 <= n <= tile_count(img.width, tile_size),
    ensures
        join_row(split(img, tile_size), (i * tile_count(img.width, tile_size)) as int, n) == Some(
            img.crop(
                i * tile_extent(img.height, tile_size),
                0,
                tile_extent(img.height, tile_size),
                n * tile_extent(img.width, tile_size),
            ),
        ),
    decreases n,
{
    let th = tile_extent(img.height, tile_size);
    let tw = tile_extent(img.width, tile_size);
    let gr = tile_count(img.height, tile_size);
    let gc = tile_count(img.width, tile_size);
    let tiles = split(img, tile_size);
    let idx = i * gc + (n - 1);
    assert(idx == gc * i + (n - 1) && 0 <= idx < gr * gc && 0 <= i * gc) by (nonlinear_arith)
        requires
            idx == i * gc + (n - 1),
            0 <= i < gr,
            1 <= n <= gc,
    ;
    lemma_fundamental_div_mod_converse(idx, gc as int, i as int, n - 1);
    lemma_tiles_fit(img.width, tile_size, n - 1);
    assert(tiles[idx] == img.crop(i * th, ((n - 1) * tw) as nat, th, tw));
    assert((n - 1) * tw + tw == n * tw) by (nonlinear_arith);
    if n == 1 {
        assert((n - 1) * tw == 0 && n * tw == tw) by (nonlinear_arith)
            requires
                n == 1,
        ;
    } else {
        lemma_join_split_row(img, tile_size, i, (n - 1) as nat);
        lemma_crop_concat_cols(img, i * th, 0, th, ((n - 1) * tw) as nat, tw);
        assert(i * gc + n - 1 == idx);
    }
}

/// The first `m` grid rows join into the window they cover.
pub proof fn lemma_join_split_grid<T>(img: Raster<T>, tile_size: nat, m: nat)
    requires
        tile_size > 0,
        img.height <= usize::MAX,
        img.width <= usize::MAX,
        1 <= m <= tile_count(img.height, tile_size),
    ensures
        join_grid(split(img, tile_size), m, tile_count(img.width, tile_size)) == Some(
            img.crop(
                0,
                0,
                m * tile_extent(img.height, tile_size),
                tile_count(img.width, tile_size) * tile_extent(img.width, tile_size),
            ),
        ),
    decreases m,
{
    let th = tile_extent(img.height, tile_size);
    let tw = tile_extent(img.width, tile_size);
    let gc = tile_count(img.width, tile_size);
    lemma_join_split_row(img, tile_size, (m - 1) as nat, gc);
    lemma_tiles_fit(img.height, tile_size, m - 1);
    assert((m - 1) * th + th == m * th) by (nonlinear_arith);
    if m == 1 {
        assert((m - 1) * th == 0 && m * th == th && (m - 1) * gc == 0) by (nonlinear_arith)
            requires
                m == 1,
        ;
    } else {
        lemma_join_split_grid(img, tile_size, (m - 1) as nat);
        lemma_crop_concat_rows(img, 0, 0, ((m - 1) * th) as nat, th, gc * tw);
    }
}

/// Splitting a buffer whose sides are whole multiples of the tile size and
/// joining the tiles again gives back the buffer.
pub proof fn lemma_split_then_join<T>(img: Raster<T>, tile_size: nat)
    requires
        img.wf(),
        img.height <= usize::MAX,
        img.width <= usize::MAX,
        tile_size > 0,
        img.height % tile_size == 0,
        img.width % tile_size == 0,
    ensures
        join_grid(
            split(img, tile_size),
            tile_count(img.height, tile_size),
            tile_count(img.width, tile_size),
        ) == Some(img),
{
    lemma_join_split_grid(img, tile_size, tile_count(img.height, tile_size));
    lemma_tiles_fit(img.height, tile_size, 0);
    lemma_tiles_fit(img.width, tile_size, 0);
    lemma_crop_whole(img);
}

/// Cuts `img` into its grid of tiles and reports the grid's rows and columns.
pub fn img2tiles<T: Copy>(img: &PixelBuffer<T>, tile_size: usize) -> (out: (
    Vec<PixelBuffer<T>>,
    [usize; 2],
))
    requires
        img.wf(),
        tile_size > 0,
    ensures
        rasters(out.0@) == split(img@, tile_size as nat),
        forall|n: int| 0 <= n < out.0@.len() ==> (#[trigger] out.0@[n]).wf(),
        out.1@[0] == tile_count(img@.height, tile_size as nat),
        out.1@[1] == tile_count(img@.width, tile_size as nat),
{
    let x: usize = img.height();
    let y: usize = img.width();
    let nx: usize = x / tile_size;
    let ny: usize = y / tile_size;
    let th: usize = if nx == 0 { x } else { tile_size };
    let tw: usize = if ny == 0 { y } else { tile_size };
    let gr: usize = if nx == 0 { 1 } else { nx };
    let gc: usize = if ny == 0 { 1 } else { ny };
    let ghost target = split(img@, tile_size as nat);
    let mut tiles: Vec<PixelBuffer<T>> = Vec::new();
    let mut i: usize = 0;
    assert(0 * (gc as int) + 0 == 0);
    while i < gr
        invariant
            img.wf(),
            tile_size > 0,
            x == img@.height,
            y == img@.width,
            th == tile_extent(img@.height, tile_size as nat),
            tw == tile_extent(img@.width, tile_size as nat),
            gr == tile_count(img@.height, tile_size as nat),
            gc == tile_count(img@.width, tile_size as nat),
            target == split(img@, tile_size as nat),
            i <= gr,
            tiles@.len() == i * gc,
            forall|n: int| 0 <= n < tiles@.len() ==> (#[trigger] tiles@[n]).wf(),
            forall|n: int| 0 <= n < tiles@.len() ==> (#[trigger] tiles@[n])@ == target[n],
        decreases gr - i,
    {
        proof {
            lemma_tiles_fit(x as nat, tile_size as nat, i as int);
        }
        let mut j: usize = 0;
        while j < gc
            invariant
                img.wf(),
                tile_size > 0,
                x == img@.height,
                y == img@.width,
                th == tile_extent(img@.height, tile_size as nat),
                tw == tile_extent(img@.width, tile_size as nat),
                gr == tile_count(img@.height, tile_size as nat),
                gc == tile_count(img@.width, tile_size as nat),
                target == split(img@, tile_size as nat),
                i < gr,
                0 <= i * th,
                i * th + th <= x,
                j <= gc,
                tiles@.len() == i * gc + j,
                forall|n: int| 0 <= n < tiles@.len() ==> (#[trigger] tiles@[n]).wf(),
                forall|n: int| 0 <= n < tiles@.len() ==> (#[trigger] tiles@[n])@ == target[n],
            decreases gc - j,
        {
            proof {
                lemma_tiles_fit(y as nat, tile_size as nat, j as int);
                let n = i * gc + j;
                assert(n == gc * i + j) by (nonlinear_arith)
                    requires
                        n == i * gc + j,
                ;
                lemma_fundamental_div_mod_converse(n, gc as int, i as int, j as int);
                assert(n < gr * gc) by (nonlinear_arith)
                    requires
                        n == i * gc + j,
                        0 <= i < gr,
                        0 <= j < gc,
                ;
            }
            let tile = img.crop(i * th, j * tw, th, tw);
            tiles.push(tile);
            j += 1;
        }
        i += 1;
        assert((i - 1) * gc + gc == i * gc) by (nonlinear_arith);
    }
    assert(rasters(tiles@) =~= target);
    (tiles, [gr, gc])
}

/// The mathematical content of a tile grid with its cursor.
pub struct TilesView<T> {
    pub tiles: Seq<Raster<T>>,
    pub cursor: nat,
    pub rows: nat,
    pub cols: nat,
}

/// An ordered grid of tiles with a cursor on one of them. Changing a tile
/// leaves the buffer it was cut from untouched until the tiles are joined.
pub struct Tiles<T> {
    tiles: Vec<PixelBuffer<T>>,
    tile_n: usize,
    rows: usize,
    cols: usize,
}

impl<T> View for Tiles<T> {
    type V = TilesView<T>;

    closed spec fn view(&self) -> TilesView<T> {
        TilesView {
            tiles: rasters(self.tiles@),
            cursor: self.tile_n as nat,
            rows: self.rows as nat,
            cols: self.cols as nat,
        }
    }
}

impl<T> TilesView<T> {
    /// The grid is not empty, holds one well-formed tile per cell, and the
    /// cursor is on a tile.
    pub open spec fn wf(self) -> bool {
        &&& self.rows >= 1
        &&& self.cols >= 1
        &&& self.tiles.len() == self.rows * self.cols
        &&& self.cursor < self.tiles.len()
        &&& forall|n: int| 0 <= n < self.tiles.len() ==> (#[trigger] self.tiles[n]).wf()
    }
}

impl<T> Tiles<T> {
    /// Every grid built by this library is well formed.
    pub open spec fn wf(&self) -> bool {
        self@.wf()
    }

    /// Cuts `img` into tiles of side `tile_size` and puts the cursor on the
    /// first one.
    pub fn new(img: &PixelBuffer<T>, tile_size: usize) -> (out: Self) where T: Copy
        requires
            img.wf(),
            tile_size > 0,
        ensures
            out.wf(),
            out@.tiles == split(img@, tile_size as nat),
            out@.cursor == 0,
            out@.rows == tile_count(img@.height, tile_size as nat),
            out@.cols == tile_count(img@.width, tile_size as nat),
    {
        let (tiles, shape) = img2tiles(img, tile_size);
        let out = Tiles { tiles, tile_n: 0, rows: shape[0], cols: shape[1] };
        proof {
            let t = split(img@, tile_size as nat);
            assert(out@.tiles == t);
            assert(out@.rows * out@.cols >= 1) by (nonlinear_arith)
                requires
                    out@.rows >= 1,
                    out@.cols >= 1,
            ;
            assert forall|n: int| 0 <= n < t.len() implies (#[trigger] t[n]).wf() by {
                assert(t[n] == out.tiles@[n]@);
            }
        }
        out
    }

    /// Moves the cursor to the next tile; stays on the last one.
    pub fn right(&mut self)
        requires
            old(self).wf(),
        ensures
            final(self).wf(),
            final(self)@ == (TilesView {
                cursor: if old(self)@.cursor + 1 < old(self)@.tiles.len() {
                    old(self)@.cursor + 1
                } else {
                    old(self)@.cursor
                },
                ..old(self)@
            }),
    {
        if self.tile_n < self.tiles.len() - 1 {
            self.tile_n += 1
        }
    }

    /// Moves the cursor to the previous tile; stays on the first one.
    pub fn left(&mut self)
        requires
            old(self).wf(),
        ensures
            final(self).wf(),
            final(self)@ == (TilesView {
                cursor: if old(self)@.cursor > 0 {
                    (old(self)@.cursor - 1) as nat
                } else {
                    0
                },
                ..old(self)@
            }),
    {
        if self.tile_n > 0 {
            self.tile_n -= 1;
        }
    }

    /// The tile under the cursor.
    pub fn get(&self) -> (tile: &PixelBuffer<T>)
        requires
            self.wf(),
        ensures
            tile@ == self@.tiles[self@.cursor as int],
            tile.wf(),
    {
        assert(self.tiles@[self.tile_n as int]@ == self@.tiles[self.tile_n as int]);
        &self.tiles[self.tile_n]
    }

    /// Number of tiles.
    pub fn len(&self) -> (n: usize)
        ensures
            n == self@.tiles.len(),
    {
        self.tiles.len()
    }

    /// Rows and columns of the grid.
    pub fn shape(&self) -> (s: [usize; 2])
        ensures
            s@[0] == self@.rows,
            s@[1] == self@.cols,
    {
        [self.rows, self.cols]
    }

    /// Index of the tile under the cursor.
    pub fn position(&self) -> (n: usize)
        ensures
            n == self@.cursor,
    {
        self.tile_n
    }

    /// Replaces the tile under the cursor; always reports `true`.
    pub fn update(&mut self, img: PixelBuffer<T>) -> (done: bool)
        requires
            old(self).wf(),
            img.wf(),
        ensures
            done,
            final(self).wf(),
            final(self)@ == (TilesView {
                tiles: old(self)@.tiles.update(old(self)@.cursor as int, img@),
                ..old(self)@
            }),
    {
        let n: usize = self.tile_n;
        self.tiles.set(n, img);
        proof {
            assert(rasters(self.tiles@) =~= rasters(old(self).tiles@).update(n as int, img@));
        }
        true
    }

    /// Joins the tiles `start .. start + cols` left to right.
    fn join_line(&self, start: usize) -> (r: Result<PixelBuffer<T>, PixelError>) where T: Copy
        requires
            self.wf(),
            start + self@.cols <= self@.tiles.len(),
        ensures
            match join_row(self@.tiles, start as int, self@.cols) {
                Some(img) => r is Ok && r->Ok_0@ == img && r->Ok_0.wf(),
                None => r == Err::<PixelBuffer<T>, PixelError>(PixelError::ShapeMismatch),
            },
    {
        let cols: usize = self.cols;
        let total: usize = self.tiles.len();
        let mut line: PixelBuffer<T> = self.tiles[start].duplicate();
        let mut j: usize = 1;
        assert(self.tiles@[start as int]@ == self@.tiles[start as int]);
        while j < cols
            invariant
                self.wf(),
                cols == self@.cols,
                total == self@.tiles.len(),
                start + cols <= total,
                1 <= j <= cols,
                line.wf(),
                join_row(self@.tiles, start as int, j as nat) == Some(line@),
            decreases cols - j,
        {
            assert(self.tiles@[start + j]@ == self@.tiles[start + j]);
            match line.concat_cols(&self.tiles[start + j]) {
                Ok(joined) => {
                    line = joined;
                },
                Err(e) => {
                    proof {
                        lemma_join_row_fails(
                            self@.tiles,
                            start as int,
                            (j + 1) as nat,
                            cols as nat,
                        );
                    }
                    return Err(e);
                },
            }
            j += 1;
        }
        Ok(line)
    }

    /// Joins the tiles back into one buffer: each grid row left to right, then
    /// the rows top to bottom. Fails when tiles that must share an edge have
    /// different lengths along it, or differ in rank or depth.
    pub fn to_img(&self) -> (r: Result<PixelBuffer<T>, PixelError>) where T: Copy
        requires
            self.wf(),
        ensures
            match join_grid(self@.tiles, self@.rows, self@.cols) {
                Some(img) => r is Ok && r->Ok_0@ == img && r->Ok_0.wf(),
                None => r == Err::<PixelBuffer<T>, PixelError>(PixelError::ShapeMismatch),
            },
    {
        let rows: usize = self.rows;
        let cols: usize = self.cols;
        let total: usize = self.tiles.len();
        assert(0 + cols <= rows * cols) by (nonlinear_arith)
            requires
                rows >= 1,
                cols >= 0,
        ;
        let mut combined: PixelBuffer<T> = match self.join_line(0) {
            Ok(line) => line,
            Err(e) => {
                proof {
                    lemma_join_grid_fails(self@.tiles, 1, rows as nat, cols as nat);
                }
                return Err(e);
            },
        };
        let mut i: usize = 1;
        while i < rows
            invariant
                self.wf(),
                rows == self@.rows,
                cols == self@.cols,
                total == rows * cols,
                1 <= i <= rows,
                combined.wf(),
                join_grid(self@.tiles, i as nat, cols as nat) == Some(combined@),
            decreases rows - i,
        {
            assert(i * cols + cols <= rows * cols && 0 <= i * cols) by (nonlinear_arith)
                requires
                    1 <= i < rows,
                    cols >= 0,
            ;
            let line: PixelBuffer<T> = match self.join_line(i * cols) {
                Ok(line) => line,
                Err(e) => {
                    proof {
                        lemma_join_grid_fails(
                            self@.tiles,
                            (i + 1) as nat,
                            rows as nat,
                            cols as nat,
                        );
                    }
                    return Err(e);
                },
            };
            match combined.concat_rows(&line) {
                Ok(joined) => {
                    combined = joined;
                },
                Err(e) => {
                    proof {
                        lemma_join_grid_fails(
                            self@.tiles,
                            (i + 1) as nat,
                            rows as nat,
                            cols as nat,
                        );
                    }
                    return Err(e);
                },
            }
            i += 1;
        }
        Ok(combined)
    }
}

} // verus!
