use vstd::prelude::*;

use crate::color::ColorBGR555;
use crate::error::Error;
use crate::imgdata::ImgHelper;
use crate::ncgr::{NCGRTiles, NCGRTilesView, Tile, NCGR};
use crate::nclr::NCLR;
use crate::nscr::{TileRef, NSCR};

verus! {

/// One 8x8 cell of true colors cut out of an image, together with the
/// palette slot it ends up assigned to.
#[derive(Debug, Clone)]
pub struct FixerTile {
    /// The 64 colors of the cell, row-major.
    pub pixels: Vec<ColorBGR555>,
    /// The palette slot assigned during allocation.
    pub pal: u16,
}

/// Mathematical image of a [`FixerTile`].
pub struct FixerTileView {
    pub pixels: Seq<ColorBGR555>,
    pub pal: u16,
}

impl View for FixerTile {
    type V = FixerTileView;

    open spec fn view(&self) -> FixerTileView {
        FixerTileView { pixels: self.pixels@, pal: self.pal }
    }
}

impl FixerTileView {
    pub open spec fn wf(self) -> bool {
        self.pixels.len() == 64
    }
}

/// The color a true-color pixel maps to: each 8-bit channel cut down to
/// its upper 5 bits.
pub open spec fn color_of_rgb(p: [u8; 3]) -> ColorBGR555 {
    ColorBGR555 { r: (p@[0] / 8) as u8, g: (p@[1] / 8) as u8, b: (p@[2] / 8) as u8, x: false }
}

/// The 64 colors of the 8x8 cell whose top-left pixel is `(x, y)`.
pub open spec fn cell_at(img: &ImgHelper, x: int, y: int) -> Seq<ColorBGR555> {
    Seq::new(
        64,
        |k: int| color_of_rgb(img.pixels@[(x + k % 8) + (y + k / 8) * img.width]),
    )
}

/// A cell mirrored horizontally and/or vertically: flips act on the
/// addressing of the 8x8 grid.
pub open spec fn flip_spec(t: Seq<ColorBGR555>, fx: bool, fy: bool) -> Seq<ColorBGR555> {
    Seq::new(
        64,
        |k: int|
            t[(if fy {
                7 - k / 8
            } else {
                k / 8
            }) * 8 + (if fx {
                7 - k % 8
            } else {
                k % 8
            })],
    )
}

/// The distinct values of a sequence, in order of first appearance.
pub open spec fn spec_distinct(s: Seq<ColorBGR555>) -> Seq<ColorBGR555>
    decreases s.len(),
{
    if s.len() == 0 {
        Seq::empty()
    } else {
        let d = spec_distinct(s.drop_last());
        if d.contains(s.last()) {
            d
        } else {
            d.push(s.last())
        }
    }
}

/// The position of the first occurrence of `c`, searching from `i`.
pub open spec fn first_index(s: Seq<ColorBGR555>, c: ColorBGR555, i: int) -> Option<int>
    decreases s.len() - i,
{
    if i < 0 || i >= s.len() {
        None
    } else if s[i] == c {
        Some(i)
    } else {
        first_index(s, c, i + 1)
    }
}

/// A found first occurrence is a real, in-range occurrence.
pub proof fn lemma_first_index_in_range(s: Seq<ColorBGR555>, c: ColorBGR555, i: int)
    requires
        first_index(s, c, i) is Some,
    ensures
        i <= first_index(s, c, i)->Some_0 < s.len(),
        s[first_index(s, c, i)->Some_0] == c,
    decreases s.len() - i,
{
    if !(i < 0 || i >= s.len()) && s[i] != c {
        lemma_first_index_in_range(s, c, i + 1);
    }
}

/// Whether the buffer holds this color.
pub fn contains_color(v: &Vec<ColorBGR555>, c: ColorBGR555) -> (r: bool)
    ensures
        r == v@.contains(c),
{
    let n = v.len();
    let mut i: usize = 0;
    while i < n
        invariant
            n == v@.len(),
            i <= n,
            forall|k: int| 0 <= k < i ==> v@[k] != c,
        decreases n - i,
    {
        if v[i] == c {
            proof {
                assert(v@.contains(c));
            }
            return true;
        }
        i = i + 1;
    }
    proof {
        assert(!v@.contains(c)) by {
            if v@.contains(c) {
                let k = choose|k: int| 0 <= k < v@.len() && v@[k] == c;
                assert(v@[k] != c);
            }
        }
    }
    false
}

/// The position of the first occurrence of `c` in the buffer.
pub fn position_of(v: &Vec<ColorBGR555>, c: ColorBGR555) -> (r: Option<usize>)
    ensures
        match r {
            Some(i) => first_index(v@, c, 0) == Some(i as int),
            None => first_index(v@, c, 0) is None,
        },
{
    let n = v.len();
    let mut i: usize = 0;
    while i < n
        invariant
            n == v@.len(),
            i <= n,
            first_index(v@, c, 0) == first_index(v@, c, i as int),
        decreases n - i,
    {
        if v[i] == c {
            return Some(i);
        }
        i = i + 1;
    }
    None
}

impl FixerTile {
    /// Cuts the 8x8 cell whose top-left pixel is `(x, y)` out of an
    /// image, converting each pixel to its 15-bit color.
    pub fn from_image(img: &ImgHelper, x: usize, y: usize) -> (r: Result<FixerTile, Error>)
        requires
            img.wf(),
            x + 8 <= img.width,
            y + 8 <= img.height,
        ensures
            (r matches Ok(t) && t@.pixels == cell_at(img, x as int, y as int) && t@.pal == 0),
    {
        let mut pixels: Vec<ColorBGR555> = Vec::new();
        let mut j: usize = 0;
        while j < 8
            invariant
                img.wf(),
                x + 8 <= img.width,
                y + 8 <= img.height,
                j <= 8,
                pixels@.len() == j * 8,
                pixels@ =~= cell_at(img, x as int, y as int).subrange(0, (j * 8) as int),
            decreases 8 - j,
        {
            let mut i: usize = 0;
            while i < 8
                invariant
                    img.wf(),
                    x + 8 <= img.width,
                    y + 8 <= img.height,
                    j < 8,
                    i <= 8,
                    pixels@.len() == j * 8 + i,
                    pixels@ =~= cell_at(img, x as int, y as int).subrange(0, (j * 8 + i) as int),
                decreases 8 - i,
            {
                let p = img.get_pixel(x + i, y + j);
                let c = ColorBGR555::from_rgb8(p);
                proof {
                    let k = (j * 8 + i) as int;
                    assert(k / 8 == j && k % 8 == i) by (nonlinear_arith)
                        requires
                            0 <= i < 8 && 0 <= j && k == j * 8 + i,
                    ;
                    assert(cell_at(img, x as int, y as int)[k] == color_of_rgb(
                        img.pixels@[(x + i) + (y + j) * img.width],
                    ));
                }
                pixels.push(c);
                i = i + 1;
                proof {
                    assert(pixels@ =~= cell_at(img, x as int, y as int).subrange(
                        0,
                        (j * 8 + i) as int,
                    ));
                }
            }
            j = j + 1;
        }
        proof {
            assert(cell_at(img, x as int, y as int).subrange(0, 64) =~= cell_at(
                img,
                x as int,
                y as int,
            ));
        }
        Ok(FixerTile { pixels, pal: 0 })
    }

    /// The cell mirrored horizontally and/or vertically.
    pub fn flip(&self, x: bool, y: bool) -> (r: FixerTile)
        requires
            self@.wf(),
        ensures
            r@.pixels == flip_spec(self@.pixels, x, y),
            r@.pal == 0,
    {
        let mut pixels: Vec<ColorBGR555> = Vec::new();
        let mut j: usize = 0;
        while j < 8
            invariant
                self@.wf(),
                j <= 8,
                pixels@.len() == j * 8,
                pixels@ =~= flip_spec(self@.pixels, x, y).subrange(0, (j * 8) as int),
            decreases 8 - j,
        {
            let mut i: usize = 0;
            while i < 8
                invariant
                    self@.wf(),
                    j < 8,
                    i <= 8,
                    pixels@.len() == j * 8 + i,
                    pixels@ =~= flip_spec(self@.pixels, x, y).subrange(0, (j * 8 + i) as int),
                decreases 8 - i,
            {
                let sj = if y { 7 - j } else { j };
                let si = if x { 7 - i } else { i };
                let c = self.pixels[sj * 8 + si];
                proof {
                    let k = (j * 8 + i) as int;
                    assert(k / 8 == j && k % 8 == i) by (nonlinear_arith)
                        requires
                            0 <= i < 8 && 0 <= j && k == j * 8 + i,
                    ;
                    assert(flip_spec(self@.pixels, x, y)[k] == self@.pixels[sj * 8 + si]);
                }
                pixels.push(c);
                i = i + 1;
                proof {
                    assert(pixels@ =~= flip_spec(self@.pixels, x, y).subrange(
                        0,
                        (j * 8 + i) as int,
                    ));
                }
            }
            j = j + 1;
        }
        proof {
            assert(flip_spec(self@.pixels, x, y).subrange(0, 64) =~= flip_spec(
                self@.pixels,
                x,
                y,
            ));
        }
        FixerTile { pixels, pal: 0 }
    }

    /// The distinct colors of the cell, in order of first appearance.
    pub fn colors(&self) -> (r: Vec<ColorBGR555>)
        ensures
            r@ == spec_distinct(self@.pixels),
    {
        let mut colors: Vec<ColorBGR555> = Vec::new();
        let n = self.pixels.len();
        let mut i: usize = 0;
        while i < n
            invariant
                n == self.pixels@.len(),
                i <= n,
                colors@ == spec_distinct(self@.pixels.subrange(0, i as int)),
            decreases n - i,
        {
            let c = self.pixels[i];
            let present = contains_color(&colors, c);
            if !present {
                colors.push(c);
            }
            i = i + 1;
            proof {
                let pre = self@.pixels.subrange(0, i as int);
                assert(pre.drop_last() =~= self@.pixels.subrange(0, i - 1));
                assert(pre.last() == self@.pixels[i - 1]);
            }
        }
        proof {
            assert(self@.pixels.subrange(0, n as int) =~= self@.pixels);
        }
        colors
    }

    /// Re-expresses the cell as palette-relative indices: each pixel
    /// becomes the position of its color within the palette.
    pub fn apply_palette(&self, pal: &Vec<ColorBGR555>) -> (r: Vec<u8>)
        requires
            pal@.len() <= 256,
            forall|k: int| 0 <= k < self@.pixels.len() ==> pal@.contains(#[trigger] self@.pixels[k]),
        ensures
            r@.len() == self@.pixels.len(),
            forall|k: int|
                0 <= k < self@.pixels.len() ==> first_index(pal@, self@.pixels[k], 0) == Some(
                    #[trigger] r@[k] as int,
                ),
    {
        let mut tile: Vec<u8> = Vec::new();
        let n = self.pixels.len();
        let mut i: usize = 0;
        while i < n
            invariant
                n == self.pixels@.len(),
                pal@.len() <= 256,
                forall|k: int|
                    0 <= k < self@.pixels.len() ==> pal@.contains(#[trigger] self@.pixels[k]),
                i <= n,
                tile@.len() == i,
                forall|k: int|
                    0 <= k < i ==> first_index(pal@, self@.pixels[k], 0) == Some(
                        #[trigger] tile@[k] as int,
                    ),
            decreases n - i,
        {
            let c = self.pixels[i];
            let pos = match position_of(pal, c) {
                Some(p) => p,
                None => {
                    proof {
                        assert(pal@.contains(self@.pixels[i as int]));
                        lemma_contains_first_index(pal@, c);
                    }
                    unreached()
                },
            };
            proof {
                lemma_first_index_in_range(pal@, c, 0);
            }
            tile.push(pos as u8);
            i = i + 1;
        }
        tile
    }
}

/// How a cell relates to a stored unique tile, if at all: the flip
/// variants are tried in the fixed order none, horizontal, vertical,
/// both, and the first that matches wins.
pub open spec fn match_flip(c: Seq<ColorBGR555>, t: Seq<ColorBGR555>) -> Option<(bool, bool)> {
    if c == t {
        Some((false, false))
    } else if c == flip_spec(t, true, false) {
        Some((true, false))
    } else if c == flip_spec(t, false, true) {
        Some((false, true))
    } else if c == flip_spec(t, true, true) {
        Some((true, true))
    } else {
        None
    }
}

/// The earliest stored tile (searching from `i`) that the cell matches
/// under some flip, with that flip.
pub open spec fn find_match(
    c: Seq<ColorBGR555>,
    tiles: Seq<Seq<ColorBGR555>>,
    i: int,
) -> Option<(int, bool, bool)>
    decreases tiles.len() - i,
{
    if i < 0 || i >= tiles.len() {
        None
    } else {
        match match_flip(c, tiles[i]) {
            Some(f) => Some((i, f.0, f.1)),
            None => find_match(c, tiles, i + 1),
        }
    }
}

/// The deduplication walk: cells are taken in raster order; a cell that
/// matches an already stored tile (earliest tile first, flips in the
/// fixed order) becomes a reference to it, any other cell is stored as a
/// new unique tile with an identity reference.
pub open spec fn extract_spec(
    cells: Seq<Seq<ColorBGR555>>,
    k: int,
    tiles: Seq<Seq<ColorBGR555>>,
    refs: Seq<TileRef>,
) -> (Seq<Seq<ColorBGR555>>, Seq<TileRef>)
    decreases cells.len() - k,
{
    if k < 0 || k >= cells.len() {
        (tiles, refs)
    } else {
        match find_match(cells[k], tiles, 0) {
            Some(m) => extract_spec(
                cells,
                k + 1,
                tiles,
                refs.push(TileRef { tile: m.0 as u16, flip_x: m.1, flip_y: m.2, palette: 0 }),
            ),
            None => extract_spec(
                cells,
                k + 1,
                tiles.push(cells[k]),
                refs.push(
                    TileRef { tile: tiles.len() as u16, flip_x: false, flip_y: false, palette: 0 },
                ),
            ),
        }
    }
}

/// The 8x8 cells of an image, in raster order.
pub open spec fn cells_of(img: &ImgHelper) -> Seq<Seq<ColorBGR555>> {
    let w8 = img.width as int / 8;
    let h8 = img.height as int / 8;
    Seq::new((w8 * h8) as nat, |t: int| cell_at(img, (t % w8) * 8, (t / w8) * 8))
}

/// Whether two cells hold the same 64 colors.
pub fn cells_equal(a: &Vec<ColorBGR555>, b: &Vec<ColorBGR555>) -> (r: bool)
    ensures
        r == (a@ == b@),
{
    if a.len() != b.len() {
        proof {
            assert(a@ != b@);
        }
        return false;
    }
    let n = a.len();
    let mut i: usize = 0;
    while i < n
        invariant
            n == a@.len() && n == b@.len(),
            i <= n,
            forall|k: int| 0 <= k < i ==> a@[k] == b@[k],
        decreases n - i,
    {
        if !(a[i] == b[i]) {
            proof {
                assert(a@[i as int] != b@[i as int]);
            }
            return false;
        }
        i = i + 1;
    }
    proof {
        assert(a@ =~= b@);
    }
    true
}

/// Deduplicates a list of cells: every cell becomes a reference to the
/// first stored tile it matches under the fixed flip order, or is stored
/// itself.
pub fn extract_tiles(cells: &Vec<FixerTile>) -> (r: (Vec<FixerTile>, Vec<TileRef>))
    requires
        forall|k: int| 0 <= k < cells@.len() ==> (#[trigger] cells@[k])@.wf(),
        cells@.len() < 0x10000,
    ensures
        (fixer_views(r.0@), r.1@) == extract_spec(
            fixer_views(cells@),
            0,
            Seq::empty(),
            Seq::empty(),
        ),
        forall|k: int| 0 <= k < r.0@.len() ==> (#[trigger] r.0@[k])@.wf() && r.0@[k]@.pal == 0,
        r.0@.len() <= cells@.len(),
        r.1@.len() == cells@.len(),
{
    let mut tiles: Vec<FixerTile> = Vec::new();
    let mut refs: Vec<TileRef> = Vec::new();
    let n = cells.len();
    let mut k: usize = 0;
    let ghost cv = fixer_views(cells@);
    proof {
        assert(fixer_views(tiles@) =~= Seq::<Seq<ColorBGR555>>::empty());
        assert(refs@ =~= Seq::<TileRef>::empty());
    }
    while k < n
        invariant
            n == cells@.len(),
            n < 0x10000,
            cv == fixer_views(cells@),
            forall|q: int| 0 <= q < cells@.len() ==> (#[trigger] cells@[q])@.wf(),
            k <= n,
            refs@.len() == k,
            tiles@.len() <= k,
            forall|q: int| 0 <= q < tiles@.len() ==> (#[trigger] tiles@[q])@.wf()
                && tiles@[q]@.pal == 0,
            extract_spec(cv, 0, Seq::empty(), Seq::empty()) == extract_spec(
                cv,
                k as int,
                fixer_views(tiles@),
                refs@,
            ),
        decreases n - k,
    {
        let cell = &cells[k];
        let ghost tv = fixer_views(tiles@);
        let nt = tiles.len();
        let mut c: usize = 0;
        let mut found: Option<TileRef> = None;
        while found.is_none() && c < nt
            invariant
                nt == tiles@.len(),
                nt < 0x10000,
                tv == fixer_views(tiles@),
                cell@.pixels == cv[k as int],
                cell@.wf(),
                forall|q: int| 0 <= q < tiles@.len() ==> (#[trigger] tiles@[q])@.wf(),
                c <= nt,
                match found {
                    None => find_match(cv[k as int], tv, 0) == find_match(
                        cv[k as int],
                        tv,
                        c as int,
                    ),
                    Some(m) => c < nt && find_match(cv[k as int], tv, 0) == Some(
                        (c as int, m.flip_x, m.flip_y),
                    ) && m.tile == c && m.palette == 0,
                },
            decreases nt - c, (if found is None { 1int } else { 0int }),
        {
            let cand = &tiles[c];
            proof {
                assert(cand@.pixels == tv[c as int]);
            }
            if cells_equal(&cell.pixels, &cand.pixels) {
                found = Some(TileRef { tile: c as u16, flip_x: false, flip_y: false, palette: 0 });
                proof {
                    assert(match_flip(cv[k as int], tv[c as int]) == Some((false, false)));
                }
            } else {
                let fh = cand.flip(true, false);
                let fv = cand.flip(false, true);
                let fb = cand.flip(true, true);
                if cells_equal(&cell.pixels, &fh.pixels) {
                    found = Some(
                        TileRef { tile: c as u16, flip_x: true, flip_y: false, palette: 0 },
                    );
                    proof {
                        assert(match_flip(cv[k as int], tv[c as int]) == Some((true, false)));
                    }
                } else if cells_equal(&cell.pixels, &fv.pixels) {
                    found = Some(
                        TileRef { tile: c as u16, flip_x: false, flip_y: true, palette: 0 },
                    );
                    proof {
                        assert(match_flip(cv[k as int], tv[c as int]) == Some((false, true)));
                    }
                } else if cells_equal(&cell.pixels, &fb.pixels) {
                    found = Some(
                        TileRef { tile: c as u16, flip_x: true, flip_y: true, palette: 0 },
                    );
                    proof {
                        assert(match_flip(cv[k as int], tv[c as int]) == Some((true, true)));
                    }
                } else {
                    proof {
                        assert(match_flip(cv[k as int], tv[c as int]) is None);
                    }
                    c = c + 1;
                }
            }
        }
        proof {
            if found is Some {
                let m = found->Some_0;
                assert(find_match(cv[k as int], tv, 0) == Some((c as int, m.flip_x, m.flip_y)));
            } else {
                assert(find_match(cv[k as int], tv, 0) is None);
            }
        }
        match found {
            Some(tr) => {
                refs.push(tr);
                proof {
                    assert(fixer_views(tiles@) == tv);
                }
            },
            None => {
                let mut cp: Vec<ColorBGR555> = Vec::new();
                let mut q: usize = 0;
                while q < cell.pixels.len()
                    invariant
                        q <= cell.pixels@.len(),
                        cp@ =~= cell.pixels@.subrange(0, q as int),
                    decreases cell.pixels@.len() - q,
                {
                    cp.push(cell.pixels[q]);
                    q = q + 1;
                    proof {
                        assert(cp@ =~= cell.pixels@.subrange(0, q as int));
                    }
                }
                proof {
                    assert(cp@ =~= cell.pixels@);
                }
                refs.push(
                    TileRef { tile: tiles.len() as u16, flip_x: false, flip_y: false, palette: 0 },
                );
                tiles.push(FixerTile { pixels: cp, pal: 0 });
                proof {
                    assert(fixer_views(tiles@) =~= tv.push(cv[k as int]));
                }
            },
        }
        k = k + 1;
    }
    proof {
        assert(extract_spec(cv, n as int, fixer_views(tiles@), refs@) == (
            fixer_views(tiles@),
            refs@,
        ));
    }
    (tiles, refs)
}

/// Spec image of a vector of fixer tiles: just their pixels.
pub open spec fn fixer_views(ts: Seq<FixerTile>) -> Seq<Seq<ColorBGR555>> {
    Seq::new(ts.len(), |i: int| ts[i]@.pixels)
}

/// Slices an image into 8x8 cells in raster order and deduplicates them
/// into unique tiles plus one reference per cell; fails exactly when a
/// dimension is not a multiple of 8.
pub fn image_to_tiles(img: &ImgHelper) -> (r: Result<
    (Vec<FixerTile>, Vec<TileRef>, usize, usize),
    Error,
>)
    requires
        img.wf(),
        img.width * img.height < 0x400000,
    ensures
        match r {
            Ok(out) => {
                &&& img.width % 8 == 0 && img.height % 8 == 0
                &&& out.2 == img.width && out.3 == img.height
                &&& out.1@.len() == cells_of(img).len()
                &&& (fixer_views(out.0@), out.1@) == extract_spec(
                    cells_of(img),
                    0,
                    Seq::empty(),
                    Seq::empty(),
                )
                &&& forall|k: int|
                    0 <= k < out.0@.len() ==> (#[trigger] out.0@[k])@.wf() && out.0@[k]@.pal == 0
            },
            Err(e) => {
                &&& (img.width % 8 != 0 || img.height % 8 != 0)
                &&& e matches Error::BadImageDimensions { width, height } && width == img.width
                    && height == img.height
            },
        },
{
    if img.width % 8 != 0 || img.height % 8 != 0 {
        return Err(Error::BadImageDimensions { width: img.width, height: img.height });
    }
    let w8 = img.width / 8;
    let h8 = img.height / 8;
    let ghost cv = cells_of(img);
    proof {
        assert(w8 * h8 >= 0) by (nonlinear_arith)
            requires
                w8 >= 0 && h8 >= 0,
        ;
        assert(w8 * h8 * 64 <= img.width * img.height) by (nonlinear_arith)
            requires
                w8 == img.width as int / 8 && h8 == img.height as int / 8 && img.width % 8 == 0
                    && img.height % 8 == 0 && img.width >= 0 && img.height >= 0,
        ;
        assert(cv.len() == w8 * h8);
    }
    let mut cells: Vec<FixerTile> = Vec::new();
    let mut j: usize = 0;
    while j < h8
        invariant
            img.wf(),
            img.width % 8 == 0 && img.height % 8 == 0,
            w8 == img.width as int / 8 && h8 == img.height as int / 8,
            w8 * h8 * 64 <= img.width * img.height,
            img.width * img.height < 0x400000,
            cv == cells_of(img),
            cv.len() == w8 * h8,
            j <= h8,
            cells@.len() == j * w8,
            forall|q: int| 0 <= q < cells@.len() ==> (#[trigger] cells@[q])@.wf()
                && cells@[q]@.pixels == cv[q],
        decreases h8 - j,
    {
        proof {
            assert(j * w8 + w8 <= h8 * w8 && h8 * w8 == w8 * h8) by (nonlinear_arith)
                requires
                    j < h8 && w8 >= 0,
            ;
        }
        let mut i: usize = 0;
        while i < w8
            invariant
                img.wf(),
                img.width % 8 == 0 && img.height % 8 == 0,
                w8 == img.width as int / 8 && h8 == img.height as int / 8,
                img.width * img.height < 0x400000,
                cv == cells_of(img),
                cv.len() == w8 * h8,
                j < h8,
                i <= w8,
                j * w8 + w8 <= w8 * h8,
                cells@.len() == j * w8 + i,
                forall|q: int| 0 <= q < cells@.len() ==> (#[trigger] cells@[q])@.wf()
                    && cells@[q]@.pixels == cv[q],
            decreases w8 - i,
        {
            proof {
                assert(i * 8 + 8 <= w8 * 8 && w8 * 8 <= img.width) by (nonlinear_arith)
                    requires
                        i < w8 && w8 == img.width as int / 8 && img.width % 8 == 0 && img.width
                            >= 0,
                ;
                assert(j * 8 + 8 <= h8 * 8 && h8 * 8 <= img.height) by (nonlinear_arith)
                    requires
                        j < h8 && h8 == img.height as int / 8 && img.height % 8 == 0 && img.height
                            >= 0,
                ;
            }
            let t = match FixerTile::from_image(img, i * 8, j * 8) {
                Ok(t) => t,
                Err(_) => {
                    proof {
                        assert(false);
                    }
                    return Err(Error::BadImageDimensions { width: img.width, height: img.height });
                },
            };
            proof {
                let q = (j * w8 + i) as int;
                vstd::arithmetic::div_mod::lemma_fundamental_div_mod_converse(
                    q,
                    w8 as int,
                    j as int,
                    i as int,
                );
                assert(q / (w8 as int) == j && q % (w8 as int) == i);
                assert(cv[q] == cell_at(img, (i * 8) as int, (j * 8) as int));
                assert(t@.pixels == cv[q]);
            }
            cells.push(t);
            i = i + 1;
        }
        j = j + 1;
        proof {
            assert(j * w8 == (j - 1) * w8 + w8) by (nonlinear_arith);
        }
    }
    proof {
        assert(cells@.len() == cv.len()) by {
            assert(h8 * w8 == w8 * h8) by (nonlinear_arith);
        }
        assert(fixer_views(cells@) =~= cv);
        assert(cv.len() < 0x10000) by (nonlinear_arith)
            requires
                cv.len() == w8 * h8 && w8 * h8 * 64 <= img.width * img.height && img.width
                    * img.height < 0x400000 && w8 >= 0 && h8 >= 0,
        ;
    }
    let (tiles, refs) = extract_tiles(&cells);
    Ok((tiles, refs, img.width, img.height))
}

/// Spec image of a vector of color lists.
pub open spec fn color_views(ss: Seq<Vec<ColorBGR555>>) -> Seq<Seq<ColorBGR555>> {
    Seq::new(ss.len(), |i: int| ss[i]@)
}

/// A slot's color list extended with whichever of the new colors it does
/// not hold yet, in their order.
pub open spec fn merged(existing: Seq<ColorBGR555>, cs: Seq<ColorBGR555>) -> Seq<ColorBGR555>
    decreases cs.len(),
{
    if cs.len() == 0 {
        existing
    } else {
        let e2 = if existing.contains(cs[0]) {
            existing
        } else {
            existing.push(cs[0])
        };
        merged(e2, cs.drop_first())
    }
}

/// The most colors one palette slot may hold: 256 per palette in 8-bit
/// mode, but the allocator must keep one spare below the limit; 16 in
/// 4-bit mode.
pub open spec fn slot_cap(is8: bool) -> int {
    if is8 {
        255
    } else {
        16
    }
}

/// How many palette slots exist: one in 8-bit mode, 16 in 4-bit mode.
pub open spec fn max_slots(is8: bool) -> int {
    if is8 {
        1
    } else {
        16
    }
}

/// The first slot (from `j`) that can absorb the colors without running
/// over the budget.
pub open spec fn first_fit(
    slots: Seq<Seq<ColorBGR555>>,
    cs: Seq<ColorBGR555>,
    j: int,
    is8: bool,
) -> Option<int>
    decreases slots.len() - j,
{
    if j < 0 || j >= slots.len() {
        None
    } else if merged(slots[j], cs).len() <= slot_cap(is8) {
        Some(j)
    } else {
        first_fit(slots, cs, j + 1, is8)
    }
}

/// One allocation step: the tile's colors go into the first slot that can
/// absorb them; a new slot opens only when no existing one can, and only
/// while slots remain.
pub open spec fn alloc_one(
    slots: Seq<Seq<ColorBGR555>>,
    cs: Seq<ColorBGR555>,
    is8: bool,
) -> Option<(int, Seq<Seq<ColorBGR555>>)> {
    match first_fit(slots, cs, 0, is8) {
        Some(j) => Some((j, slots.update(j, merged(slots[j], cs)))),
        None => if slots.len() < max_slots(is8) && merged(Seq::empty(), cs).len() <= slot_cap(
            is8,
        ) {
            Some((slots.len() as int, slots.push(merged(Seq::empty(), cs))))
        } else {
            None
        },
    }
}

/// Greedy first-fit allocation of every tile's distinct colors to palette
/// slots; `None` means some tile cannot be placed within the budget.
pub open spec fn alloc_all(
    cc: Seq<Seq<ColorBGR555>>,
    is8: bool,
    k: int,
    slots: Seq<Seq<ColorBGR555>>,
    assign: Seq<u16>,
) -> Option<(Seq<Seq<ColorBGR555>>, Seq<u16>)>
    decreases cc.len() - k,
{
    if k < 0 || k >= cc.len() {
        Some((slots, assign))
    } else {
        match alloc_one(slots, cc[k], is8) {
            Some(step) => alloc_all(cc, is8, k + 1, step.1, assign.push(step.0 as u16)),
            None => None,
        }
    }
}

/// Extends the slot with the new colors it lacks.
pub fn merge_colors(existing: &Vec<ColorBGR555>, cs: &Vec<ColorBGR555>) -> (r: Vec<ColorBGR555>)
    ensures
        r@ == merged(existing@, cs@),
{
    let mut r: Vec<ColorBGR555> = Vec::new();
    let mut q: usize = 0;
    while q < existing.len()
        invariant
            q <= existing@.len(),
            r@ =~= existing@.subrange(0, q as int),
        decreases existing@.len() - q,
    {
        r.push(existing[q]);
        q = q + 1;
        proof {
            assert(r@ =~= existing@.subrange(0, q as int));
        }
    }
    proof {
        assert(r@ =~= existing@);
        assert(cs@.skip(0) =~= cs@);
    }
    let n = cs.len();
    let mut i: usize = 0;
    while i < n
        invariant
            n == cs@.len(),
            i <= n,
            merged(existing@, cs@) == merged(r@, cs@.skip(i as int)),
        decreases n - i,
    {
        let c = cs[i];
        let ghost pre = r@;
        proof {
            assert(cs@.skip(i as int)[0] == cs@[i as int]);
            assert(cs@.skip(i as int).drop_first() =~= cs@.skip(i + 1));
        }
        if !contains_color(&r, c) {
            r.push(c);
        }
        i = i + 1;
    }
    proof {
        assert(cs@.skip(n as int) =~= Seq::<ColorBGR555>::empty());
    }
    r
}

/// The first existing slot that can absorb the colors.
pub fn find_fit(slots: &Vec<Vec<ColorBGR555>>, cs: &Vec<ColorBGR555>, is_8_bit: bool) -> (r: Option<
    usize,
>)
    ensures
        match r {
            Some(j) => first_fit(color_views(slots@), cs@, 0, is_8_bit) == Some(j as int) && j
                < slots@.len(),
            None => first_fit(color_views(slots@), cs@, 0, is_8_bit) is None,
        },
{
    let n = slots.len();
    let cap: usize = if is_8_bit { 255 } else { 16 };
    let mut j: usize = 0;
    while j < n
        invariant
            n == slots@.len(),
            cap == slot_cap(is_8_bit),
            j <= n,
            first_fit(color_views(slots@), cs@, 0, is_8_bit) == first_fit(
                color_views(slots@),
                cs@,
                j as int,
                is_8_bit,
            ),
        decreases n - j,
    {
        let m = merge_colors(&slots[j], cs);
        proof {
            assert(color_views(slots@)[j as int] == slots@[j as int]@);
        }
        if m.len() <= cap {
            return Some(j);
        }
        j = j + 1;
    }
    None
}

/// Allocates every tile's distinct colors to palette slots by greedy
/// first-fit, returning the slots and each tile's assigned slot number;
/// fails with a too-many-colors error exactly when some tile cannot be
/// placed within the 16-color (4-bit) or 256-color (8-bit) budget.
pub fn allocate_palettes(colorss: &Vec<Vec<ColorBGR555>>, is_8_bit: bool) -> (r: Result<
    (Vec<Vec<ColorBGR555>>, Vec<u16>),
    Error,
>)
    ensures
        match r {
            Ok(out) => alloc_all(
                color_views(colorss@),
                is_8_bit,
                0,
                Seq::empty(),
                Seq::empty(),
            ) == Some((color_views(out.0@), out.1@)) && out.1@.len() == colorss@.len(),
            Err(e) => alloc_all(color_views(colorss@), is_8_bit, 0, Seq::empty(), Seq::empty())
                is None && e is TooManyColors,
        },
{
    let ghost cc = color_views(colorss@);
    let mut slots: Vec<Vec<ColorBGR555>> = Vec::new();
    let mut assign: Vec<u16> = Vec::new();
    let n = colorss.len();
    let mut k: usize = 0;
    proof {
        assert(color_views(slots@) =~= Seq::<Seq<ColorBGR555>>::empty());
        assert(assign@ =~= Seq::<u16>::empty());
    }
    while k < n
        invariant
            n == colorss@.len(),
            cc == color_views(colorss@),
            k <= n,
            assign@.len() == k,
            slots@.len() <= max_slots(is_8_bit),
            alloc_all(cc, is_8_bit, 0, Seq::empty(), Seq::empty()) == alloc_all(
                cc,
                is_8_bit,
                k as int,
                color_views(slots@),
                assign@,
            ),
        decreases n - k,
    {
        let cs = &colorss[k];
        let ghost slotsv = color_views(slots@);
        proof {
            assert(cc[k as int] == cs@);
        }
        match find_fit(&slots, cs, is_8_bit) {
            Some(j) => {
                let m = merge_colors(&slots[j], cs);
                proof {
                    assert(slotsv[j as int] == slots@[j as int]@);
                }
                slots.set(j, m);
                assign.push(j as u16);
                proof {
                    assert(color_views(slots@) =~= slotsv.update(
                        j as int,
                        merged(slotsv[j as int], cs@),
                    ));
                    assert(alloc_one(slotsv, cc[k as int], is_8_bit) == Some(
                        (j as int, color_views(slots@)),
                    ));
                }
            },
            None => {
                let cap: usize = if is_8_bit { 255 } else { 16 };
                let maxn: usize = if is_8_bit { 1 } else { 16 };
                let empty_slot: Vec<ColorBGR555> = Vec::new();
                let m0 = merge_colors(&empty_slot, cs);
                proof {
                    assert(empty_slot@ =~= Seq::<ColorBGR555>::empty());
                }
                if slots.len() < maxn && m0.len() <= cap {
                    let j = slots.len();
                    slots.push(m0);
                    assign.push(j as u16);
                    proof {
                        assert(color_views(slots@) =~= slotsv.push(
                            merged(Seq::empty(), cc[k as int]),
                        ));
                        assert(alloc_one(slotsv, cc[k as int], is_8_bit) == Some(
                            (j as int, color_views(slots@)),
                        ));
                    }
                } else {
                    proof {
                        assert(alloc_one(slotsv, cc[k as int], is_8_bit) is None);
                    }
                    return Err(Error::TooManyColors);
                }
            },
        }
        k = k + 1;
    }
    Ok((slots, assign))
}

/// Merging keeps exactly the colors of the slot and of the tile.
pub proof fn lemma_merged_contains(e: Seq<ColorBGR555>, cs: Seq<ColorBGR555>, x: ColorBGR555)
    ensures
        merged(e, cs).contains(x) <==> (e.contains(x) || cs.contains(x)),
    decreases cs.len(),
{
    if cs.len() == 0 {
        assert(!cs.contains(x));
    } else {
        let e2 = if e.contains(cs[0]) {
            e
        } else {
            e.push(cs[0])
        };
        lemma_merged_contains(e2, cs.drop_first(), x);
        assert(e2.contains(x) <==> (e.contains(x) || x == cs[0])) by {
            if e.contains(cs[0]) {
            } else {
                assert(e.push(cs[0]).contains(x) <==> (e.contains(x) || x == cs[0])) by {
                    if e.push(cs[0]).contains(x) {
                        let w = choose|w: int|
                            0 <= w < e.push(cs[0]).len() && e.push(cs[0])[w] == x;
                        if w < e.len() {
                            assert(e[w] == x);
                        }
                    }
                    if e.contains(x) {
                        let w = choose|w: int| 0 <= w < e.len() && e[w] == x;
                        assert(e.push(cs[0])[w] == x);
                    }
                    if x == cs[0] {
                        assert(e.push(cs[0])[e.len() as int] == x);
                    }
                }
            }
        }
        assert(cs.contains(x) <==> (x == cs[0] || cs.drop_first().contains(x))) by {
            if cs.contains(x) {
                let w = choose|w: int| 0 <= w < cs.len() && cs[w] == x;
                if w > 0 {
                    assert(cs.drop_first()[w - 1] == x);
                }
            }
            if cs.drop_first().contains(x) {
                let w = choose|w: int| 0 <= w < cs.drop_first().len() && cs.drop_first()[w] == x;
                assert(cs[w + 1] == x);
            }
            if x == cs[0] {
                assert(cs.contains(x));
            }
        }
    }
}

/// The distinct-color list holds exactly the colors of the cell.
pub proof fn lemma_distinct_contains(s: Seq<ColorBGR555>, x: ColorBGR555)
    ensures
        spec_distinct(s).contains(x) <==> s.contains(x),
    decreases s.len(),
{
    if s.len() == 0 {
    } else {
        lemma_distinct_contains(s.drop_last(), x);
        let d = spec_distinct(s.drop_last());
        assert(s.contains(x) <==> (s.drop_last().contains(x) || x == s.last())) by {
            if s.contains(x) {
                let w = choose|w: int| 0 <= w < s.len() && s[w] == x;
                if w < s.len() - 1 {
                    assert(s.drop_last()[w] == x);
                }
            }
            if s.drop_last().contains(x) {
                let w = choose|w: int|
                    0 <= w < s.drop_last().len() && s.drop_last()[w] == x;
                assert(s[w] == x);
            }
            if x == s.last() {
                assert(s[s.len() - 1] == x);
            }
        }
        if !d.contains(s.last()) {
            assert(d.push(s.last()).contains(x) <==> (d.contains(x) || x == s.last())) by {
                if d.push(s.last()).contains(x) {
                    let w = choose|w: int|
                        0 <= w < d.push(s.last()).len() && d.push(s.last())[w] == x;
                    if w < d.len() {
                        assert(d[w] == x);
                    }
                }
                if d.contains(x) {
                    let w = choose|w: int| 0 <= w < d.len() && d[w] == x;
                    assert(d.push(s.last())[w] == x);
                }
                if x == s.last() {
                    assert(d.push(s.last())[d.len() as int] == x);
                }
            }
        }
    }
}

/// A fitting slot found by the search is in range and can really absorb
/// the colors.
pub proof fn lemma_first_fit_in_range(
    slots: Seq<Seq<ColorBGR555>>,
    cs: Seq<ColorBGR555>,
    j: int,
    is8: bool,
)
    requires
        first_fit(slots, cs, j, is8) is Some,
    ensures
        j <= first_fit(slots, cs, j, is8)->Some_0 < slots.len(),
        merged(slots[first_fit(slots, cs, j, is8)->Some_0], cs).len() <= slot_cap(is8),
    decreases slots.len() - j,
{
    if !(j < 0 || j >= slots.len()) && !(merged(slots[j], cs).len() <= slot_cap(is8)) {
        lemma_first_fit_in_range(slots, cs, j + 1, is8);
    }
}

/// What a finished allocation guarantees: no slot over its budget, no
/// more slots than the mode allows, every assignment in range, old slots
/// only ever grown, and every tile's colors contained in its assigned
/// slot.
pub proof fn lemma_alloc_all_props(
    cc: Seq<Seq<ColorBGR555>>,
    is8: bool,
    k: int,
    slots: Seq<Seq<ColorBGR555>>,
    assign: Seq<u16>,
)
    requires
        0 <= k <= cc.len(),
        slots.len() <= max_slots(is8),
        forall|j: int| 0 <= j < slots.len() ==> (#[trigger] slots[j]).len() <= slot_cap(is8),
        alloc_all(cc, is8, k, slots, assign) is Some,
    ensures
        ({
            let res = alloc_all(cc, is8, k, slots, assign)->Some_0;
            &&& res.0.len() <= max_slots(is8)
            &&& slots.len() <= res.0.len()
            &&& (forall|j: int| 0 <= j < res.0.len() ==> (#[trigger] res.0[j]).len() <= slot_cap(
                is8,
            ))
            &&& res.1.len() == assign.len() + (cc.len() - k)
            &&& (forall|i: int| 0 <= i < assign.len() ==> res.1[i] == assign[i])
            &&& (forall|i: int|
                assign.len() <= i < res.1.len() ==> (#[trigger] res.1[i]) < res.0.len())
            &&& (forall|j: int, x: ColorBGR555|
                0 <= j < slots.len() && #[trigger] slots[j].contains(x) ==> res.0[j].contains(x))
            &&& (forall|i: int, x: ColorBGR555|
                k <= i < cc.len() && #[trigger] cc[i].contains(x) ==> res.0[res.1[assign.len() + (
                i - k)] as int].contains(x))
        }),
    decreases cc.len() - k,
{
    if k >= cc.len() {
    } else {
        let step = alloc_one(slots, cc[k], is8);
        let res = alloc_all(cc, is8, k, slots, assign)->Some_0;
        match first_fit(slots, cc[k], 0, is8) {
            Some(j) => {
                lemma_first_fit_in_range(slots, cc[k], 0, is8);
                let slots2 = slots.update(j, merged(slots[j], cc[k]));
                assert(alloc_one(slots, cc[k], is8) == Some((j, slots2)));
                assert(alloc_all(cc, is8, k, slots, assign) == alloc_all(
                    cc,
                    is8,
                    k + 1,
                    slots2,
                    assign.push(j as u16),
                ));
                assert(forall|q: int|
                    0 <= q < slots2.len() ==> (#[trigger] slots2[q]).len() <= slot_cap(is8));
                lemma_alloc_all_props(cc, is8, k + 1, slots2, assign.push(j as u16));
                let res2 = alloc_all(cc, is8, k + 1, slots2, assign.push(j as u16))->Some_0;
                assert(res == res2);
                assert forall|i: int| 0 <= i < assign.len() implies res.1[i] == assign[i] by {
                    assert(res.1[i] == assign.push(j as u16)[i]);
                }
                assert forall|i: int|
                    assign.len() <= i < res.1.len() implies (#[trigger] res.1[i])
                    < res.0.len() by {
                    if i == assign.len() {
                        assert(res.1[i] == assign.push(j as u16)[i]);
                        assert(res.1[i] == j as u16);
                        assert(slots2.len() <= res.0.len());
                    }
                }
                assert forall|q: int, x: ColorBGR555|
                    0 <= q < slots.len() && #[trigger] slots[q].contains(x) implies res.0[
                    q].contains(x) by {
                    if q == j {
                        lemma_merged_contains(slots[j], cc[k], x);
                        assert(slots2[j].contains(x));
                    } else {
                        assert(slots2[q].contains(x));
                    }
                }
                assert forall|i: int, x: ColorBGR555|
                    k <= i < cc.len() && #[trigger] cc[i].contains(x) implies res.0[res.1[
                    assign.len() + (i - k)] as int].contains(x) by {
                    if i == k {
                        lemma_merged_contains(slots[j], cc[k], x);
                        assert(slots2[j].contains(x));
                        assert(res.1[assign.len() as int] == assign.push(j as u16)[assign.len() as int]);
                    } else {
                        assert(cc[i].contains(x));
                    }
                }
            },
            None => {
                let fresh = merged(Seq::empty(), cc[k]);
                let slots2 = slots.push(fresh);
                let j = slots.len() as int;
                assert(alloc_one(slots, cc[k], is8) is Some);
                assert(alloc_one(slots, cc[k], is8) == Some((j, slots2)));
                assert(alloc_all(cc, is8, k, slots, assign) == alloc_all(
                    cc,
                    is8,
                    k + 1,
                    slots2,
                    assign.push(j as u16),
                ));
                assert(forall|q: int|
                    0 <= q < slots2.len() ==> (#[trigger] slots2[q]).len() <= slot_cap(is8));
                lemma_alloc_all_props(cc, is8, k + 1, slots2, assign.push(j as u16));
                let res2 = alloc_all(cc, is8, k + 1, slots2, assign.push(j as u16))->Some_0;
                assert(res == res2);
                assert forall|i: int| 0 <= i < assign.len() implies res.1[i] == assign[i] by {
                    assert(res.1[i] == assign.push(j as u16)[i]);
                }
                assert forall|i: int|
                    assign.len() <= i < res.1.len() implies (#[trigger] res.1[i])
                    < res.0.len() by {
                    if i == assign.len() {
                        assert(res.1[i] == assign.push(j as u16)[i]);
                        assert(res.1[i] == j as u16);
                        assert(slots2.len() <= res.0.len());
                    }
                }
                assert forall|q: int, x: ColorBGR555|
                    0 <= q < slots.len() && #[trigger] slots[q].contains(x) implies res.0[
                    q].contains(x) by {
                    assert(slots2[q] == slots[q]);
                    assert(slots2[q].contains(x));
                }
                assert forall|i: int, x: ColorBGR555|
                    k <= i < cc.len() && #[trigger] cc[i].contains(x) implies res.0[res.1[
                    assign.len() + (i - k)] as int].contains(x) by {
                    if i == k {
                        lemma_merged_contains(Seq::empty(), cc[k], x);
                        assert(slots2[j].contains(x));
                        assert(res.1[assign.len() as int] == assign.push(j as u16)[assign.len() as int]);
                    } else {
                        assert(cc[i].contains(x));
                    }
                }
            },
        }
    }
}

/// Greedy palette allocation never exceeds the per-slot color budget and
/// never opens more slots than the bit depth allows: 16 colors over at
/// most 16 slots in 4-bit mode, 256 colors in the single 8-bit slot.
pub proof fn lemma_allocation_within_budget(cc: Seq<Seq<ColorBGR555>>, is8: bool)
    requires
        alloc_all(cc, is8, 0, Seq::empty(), Seq::empty()) is Some,
    ensures
        ({
            let res = alloc_all(cc, is8, 0, Seq::empty(), Seq::empty())->Some_0;
            &&& res.0.len() <= max_slots(is8)
            &&& (forall|j: int| 0 <= j < res.0.len() ==> (#[trigger] res.0[j]).len() <= slot_cap(
                is8,
            ))
            &&& (forall|i: int|
                0 <= i < cc.len() ==> (#[trigger] cc[i]).to_set() <= res.0[res.1[i] as int].to_set())
        }),
{
    lemma_alloc_all_props(cc, is8, 0, Seq::empty(), Seq::empty());
    let res = alloc_all(cc, is8, 0, Seq::empty(), Seq::empty())->Some_0;
    assert forall|i: int| 0 <= i < cc.len() implies (#[trigger] cc[i]).to_set() <= res.0[res.1[i] as int].to_set() by {
        assert forall|x: ColorBGR555| cc[i].to_set().contains(x) implies res.0[res.1[i] as int].to_set().contains(x) by {
            assert(cc[i].contains(x));
        }
    }
}

/// The distinct colors of every cell.
pub open spec fn distinct_colors_of(fts: Seq<Seq<ColorBGR555>>) -> Seq<Seq<ColorBGR555>> {
    Seq::new(fts.len(), |i: int| spec_distinct(fts[i]))
}

/// Every cell re-expressed as palette-relative indices: each pixel
/// becomes the position of its color within the cell's assigned slot.
pub open spec fn indexed_tiles_spec(
    fts: Seq<Seq<ColorBGR555>>,
    slots: Seq<Seq<ColorBGR555>>,
    assign: Seq<u16>,
) -> Seq<Seq<u8>> {
    Seq::new(
        fts.len(),
        |i: int|
            Seq::new(
                fts[i].len(),
                |kk: int| first_index(slots[assign[i] as int], fts[i][kk], 0)->Some_0 as u8,
            ),
    )
}

/// The tile references with each palette slot resolved to the slot its
/// tile was assigned (4-bit mode only; 8-bit mode has a single slot and
/// leaves the references untouched).
pub open spec fn updated_refs(refs: Seq<TileRef>, assign: Seq<u16>, n: int, is8: bool) -> Seq<
    TileRef,
> {
    Seq::new(
        refs.len(),
        |r: int|
            if !is8 && refs[r].tile < n {
                TileRef { palette: assign[refs[r].tile as int] as u8, ..refs[r] }
            } else {
                refs[r]
            },
    )
}

impl FixerTile {
    /// Turns deduplicated cells plus their references into a consistent
    /// palette + tileset + tilemap triple: palette slots are allocated
    /// greedily, every cell becomes palette-relative indices, and each
    /// reference gets its tile's slot. Fails with a too-many-colors error
    /// exactly when allocation cannot place some cell's colors.
    #[verifier::rlimit(100)]
    pub fn to_indexed_tiles(
        ftiles: Vec<FixerTile>,
        tile_refs: Vec<TileRef>,
        size: [usize; 2],
        is_8_bit: bool,
        lineal_mode: bool,
        has_cpos: bool,
        ncbr_ff: bool,
    ) -> (r: Result<(NCLR, NCGR, NSCR), Error>)
        requires
            forall|i: int| 0 <= i < ftiles@.len() ==> (#[trigger] ftiles@[i])@.wf(),
            ftiles@.len() * 64 <= usize::MAX,
            size@[0] <= u16::MAX,
            size@[1] <= u16::MAX,
        ensures
            ({
                let fts = fixer_views(ftiles@);
                let cc = distinct_colors_of(fts);
                let alloc = alloc_all(cc, is_8_bit, 0, Seq::empty(), Seq::empty());
                match r {
                    Ok(out) => {
                        let slots = alloc->Some_0.0;
                        let assign = alloc->Some_0.1;
                        &&& alloc is Some
                        &&& out.0@.palettes == Seq::new(
                            slots.len(),
                            |i: int| (i as u16, slots[i]),
                        )
                        &&& out.0@.is_8_bit == is_8_bit
                        &&& out.0@.pcmp_unk == seq![0xEFu8, 0xBEu8, 0x08u8, 0u8, 0u8, 0u8]
                        &&& (forall|j: int|
                            0 <= j < slots.len() ==> (#[trigger] slots[j]).len()
                                <= out.0@.color_amt)
                        &&& (slots.len() == 0 ==> out.0@.color_amt == 0)
                        &&& (slots.len() > 0 ==> exists|j: int|
                            0 <= j < slots.len() && (#[trigger] slots[j]).len()
                                == out.0@.color_amt)
                        &&& out.1@.is_8_bit == is_8_bit
                        &&& out.1@.has_cpos == has_cpos
                        &&& out.1@.ncbr_ff == ncbr_ff
                        &&& out.1@.tiles == (if lineal_mode {
                            NCGRTilesView::Lineal(
                                crate::ncgr::tiles_data(
                                    indexed_tiles_spec(fts, slots, assign),
                                    is_8_bit,
                                ),
                            )
                        } else {
                            NCGRTilesView::Horizontal(indexed_tiles_spec(fts, slots, assign))
                        })
                        &&& out.2@.width == size@[0] as u16
                        &&& out.2@.height == size@[1] as u16
                        &&& out.2@.tiles == updated_refs(
                            tile_refs@,
                            assign,
                            fts.len() as int,
                            is_8_bit,
                        )
                    },
                    Err(e) => alloc is None && e is TooManyColors,
                }
            }),
    {
        let ghost fts = fixer_views(ftiles@);
        let ghost cc = distinct_colors_of(fts);
        let n = ftiles.len();

        // the distinct colors of every cell
        let mut colorss: Vec<Vec<ColorBGR555>> = Vec::new();
        let mut i: usize = 0;
        while i < n
            invariant
                n == ftiles@.len(),
                fts == fixer_views(ftiles@),
                cc == distinct_colors_of(fts),
                i <= n,
                colorss@.len() == i,
                forall|q: int| 0 <= q < i ==> (#[trigger] colorss@[q])@ == cc[q],
            decreases n - i,
        {
            let cs = ftiles[i].colors();
            proof {
                assert(fts[i as int] == ftiles@[i as int]@.pixels);
            }
            colorss.push(cs);
            i = i + 1;
        }
        proof {
            assert(color_views(colorss@) =~= cc);
        }

        let (slots, assign) = match allocate_palettes(&colorss, is_8_bit) {
            Ok(out) => out,
            Err(e) => {
                return Err(e);
            },
        };
        let ghost slotsv = color_views(slots@);
        let ghost assignv = assign@;
        proof {
            lemma_alloc_all_props(cc, is_8_bit, 0, Seq::empty(), Seq::empty());
            assert(alloc_all(cc, is_8_bit, 0, Seq::empty(), Seq::empty()) == Some(
                (slotsv, assignv),
            ));
        }

        // the palette resource: slots keyed by their number, in order
        let mut palettes: Vec<(u16, Vec<ColorBGR555>)> = Vec::new();
        let mut color_amt: u32 = 0;
        let ns = slots.len();
        let mut j: usize = 0;
        while j < ns
            invariant
                ns == slots@.len(),
                ns <= 16,
                slotsv == color_views(slots@),
                forall|q: int| 0 <= q < ns ==> (#[trigger] slotsv[q]).len() <= slot_cap(is_8_bit),
                j <= ns,
                palettes@.len() == j,
                forall|q: int|
                    0 <= q < j ==> (#[trigger] palettes@[q]).0 == q as u16 && palettes@[q].1@
                        == slotsv[q],
                forall|q: int| 0 <= q < j ==> (#[trigger] slotsv[q]).len() <= color_amt,
                (j == 0 ==> color_amt == 0),
                (j > 0 ==> exists|q: int|
                    0 <= q < j && (#[trigger] slotsv[q]).len() == color_amt),
            decreases ns - j,
        {
            let slot = &slots[j];
            let mut cp: Vec<ColorBGR555> = Vec::new();
            let mut q: usize = 0;
            while q < slot.len()
                invariant
                    q <= slot@.len(),
                    cp@ =~= slot@.subrange(0, q as int),
                decreases slot@.len() - q,
            {
                cp.push(slot[q]);
                q = q + 1;
                proof {
                    assert(cp@ =~= slot@.subrange(0, q as int));
                }
            }
            proof {
                assert(cp@ =~= slot@);
                assert(slotsv[j as int] == slot@);
            }
            if cp.len() as u32 > color_amt {
                color_amt = cp.len() as u32;
            }
            palettes.push((j as u16, cp));
            j = j + 1;
        }
        let mut pcmp_unk: Vec<u8> = Vec::new();
        pcmp_unk.push(0xEF);
        pcmp_unk.push(0xBE);
        pcmp_unk.push(0x08);
        pcmp_unk.push(0x00);
        pcmp_unk.push(0x00);
        pcmp_unk.push(0x00);
        proof {
            assert(pcmp_unk@ =~= seq![0xEFu8, 0xBEu8, 0x08u8, 0u8, 0u8, 0u8]);
        }
        let clr = NCLR { palettes, is_8_bit, color_amt, pcmp_unk };
        proof {
            assert(clr@.palettes =~= Seq::new(slotsv.len(), |i: int| (i as u16, slotsv[i])));
        }

        // every cell as palette-relative indices
        let ghost itv = indexed_tiles_spec(fts, slotsv, assignv);
        let mut indexed: Vec<Tile> = Vec::new();
        let mut i: usize = 0;
        while i < n
            invariant
                n == ftiles@.len(),
                n == assign@.len(),
                fts == fixer_views(ftiles@),
                cc == distinct_colors_of(fts),
                slotsv == color_views(slots@),
                assignv == assign@,
                itv == indexed_tiles_spec(fts, slotsv, assignv),
                forall|q: int| 0 <= q < n ==> (#[trigger] ftiles@[q])@.wf(),
                forall|q: int| 0 <= q < n ==> (#[trigger] assignv[q]) < slotsv.len(),
                forall|q: int|
                    0 <= q < slotsv.len() ==> (#[trigger] slotsv[q]).len() <= slot_cap(is_8_bit),
                forall|q: int, x: ColorBGR555|
                    0 <= q < cc.len() && #[trigger] cc[q].contains(x) ==> slotsv[assignv[q] as int].contains(
                        x,
                    ),
                i <= n,
                indexed@.len() == i,
                forall|q: int| 0 <= q < i ==> (#[trigger] indexed@[q])@ == itv[q],
            decreases n - i,
        {
            let t = &ftiles[i];
            let slot_no = assign[i] as usize;
            let pal = &slots[slot_no];
            proof {
                assert(assignv[i as int] < slotsv.len());
                assert(pal@ == slotsv[slot_no as int]);
                assert(fts[i as int] == t@.pixels);
                assert(cc[i as int] == spec_distinct(t@.pixels));
                assert forall|k: int|
                    0 <= k < t@.pixels.len() implies pal@.contains(#[trigger] t@.pixels[k]) by {
                    assert(t@.pixels.contains(t@.pixels[k]));
                    lemma_distinct_contains(t@.pixels, t@.pixels[k]);
                    assert(cc[i as int].contains(t@.pixels[k]));
                }
            }
            let tv = t.apply_palette(pal);
            proof {
                assert(tv@ =~= itv[i as int]);
            }
            indexed.push(tv);
            i = i + 1;
        }
        proof {
            assert(crate::ncgr::groups_of(indexed@) =~= itv);
            assert forall|q: int, kk: int|
                0 <= q < itv.len() && 0 <= kk < itv[q].len() implies #[trigger] itv[q][kk]
                < 16 || is_8_bit by {
                if !is_8_bit {
                    let fi = first_index(slotsv[assignv[q] as int], fts[q][kk], 0);
                    assert(cc[q].contains(fts[q][kk])) by {
                        assert(fts[q].contains(fts[q][kk]));
                        lemma_distinct_contains(fts[q], fts[q][kk]);
                    }
                    lemma_contains_first_index(slotsv[assignv[q] as int], fts[q][kk]);
                    lemma_first_index_in_range(slotsv[assignv[q] as int], fts[q][kk], 0);
                    assert(fi->Some_0 < slotsv[assignv[q] as int].len());
                }
            }
            assert(itv.len() * 64 <= usize::MAX) by (nonlinear_arith)
                requires
                    itv.len() == ftiles@.len() && ftiles@.len() * 64 <= usize::MAX,
            ;
            assert forall|q: int| 0 <= q < indexed@.len() implies (#[trigger] indexed@[q]@).len()
                == 64 by {
                assert(indexed@[q]@ == itv[q]);
                assert(ftiles@[q]@.wf());
            }
            assert forall|q: int, kk: int|
                !is_8_bit && 0 <= q < indexed@.len() && 0 <= kk < 64 implies indexed@[q]@[kk]
                < 16 by {
                assert(indexed@[q]@ == itv[q]);
                assert(itv[q][kk] < 16 || is_8_bit);
            }
        }
        let tiles_store = NCGRTiles::from_tiles(indexed, is_8_bit, lineal_mode);
        let cgr = NCGR { tiles: tiles_store, is_8_bit, has_cpos, ncbr_ff };

        // the tilemap, each reference resolved to its tile's slot
        let nr = tile_refs.len();
        let mut refs2: Vec<TileRef> = Vec::new();
        let mut r: usize = 0;
        while r < nr
            invariant
                nr == tile_refs@.len(),
                n == ftiles@.len(),
                n == assign@.len(),
                assignv == assign@,
                fts == fixer_views(ftiles@),
                forall|q: int| 0 <= q < n ==> (#[trigger] assignv[q]) < 16,
                r <= nr,
                refs2@.len() == r,
                forall|q: int|
                    0 <= q < r ==> #[trigger] refs2@[q] == updated_refs(
                        tile_refs@,
                        assignv,
                        n as int,
                        is_8_bit,
                    )[q],
            decreases nr - r,
        {
            let tr = tile_refs[r];
            let nr2: TileRef;
            if !is_8_bit && (tr.tile as usize) < n {
                let p = assign[tr.tile as usize];
                nr2 = TileRef { tile: tr.tile, flip_x: tr.flip_x, flip_y: tr.flip_y, palette: p as u8 };
            } else {
                nr2 = tr;
            }
            refs2.push(nr2);
            r = r + 1;
        }
        let scr = NSCR { width: size[0] as u16, height: size[1] as u16, tiles: refs2 };
        proof {
            assert(scr@.tiles =~= updated_refs(tile_refs@, assignv, n as int, is_8_bit));
        }
        Ok((clr, cgr, scr))
    }
}

/// Flip matching during extraction: when the second of two cells is the
/// first mirrored horizontally (and not equal to it), one unique tile is
/// recorded, and the second cell becomes a reference to it with the
/// horizontal flip alone.
pub proof fn lemma_flip_match_dedup(a: Seq<ColorBGR555>, b: Seq<ColorBGR555>)
    requires
        b == flip_spec(a, true, false),
        b != a,
    ensures
        extract_spec(seq![a, b], 0, Seq::empty(), Seq::empty()) == (
            seq![a],
            seq![
                TileRef { tile: 0, flip_x: false, flip_y: false, palette: 0 },
                TileRef { tile: 0, flip_x: true, flip_y: false, palette: 0 },
            ],
        ),
{
    let cells = seq![a, b];
    let e0 = Seq::<Seq<ColorBGR555>>::empty();
    let r0 = Seq::<TileRef>::empty();
    assert(find_match(cells[0], e0, 0) is None);
    let t1 = e0.push(cells[0]);
    let r1 = r0.push(TileRef { tile: 0, flip_x: false, flip_y: false, palette: 0 });
    assert(extract_spec(cells, 0, e0, r0) == extract_spec(cells, 1, t1, r1));
    assert(t1[0] == a);
    assert(match_flip(cells[1], t1[0]) == Some((true, false)));
    assert(find_match(cells[1], t1, 0) == Some((0int, true, false)));
    let r2 = r1.push(TileRef { tile: 0, flip_x: true, flip_y: false, palette: 0 });
    assert(extract_spec(cells, 1, t1, r1) == extract_spec(cells, 2, t1, r2));
    assert(extract_spec(cells, 2, t1, r2) == (t1, r2));
    assert(t1 =~= seq![a]);
    assert(r2 =~= seq![
        TileRef { tile: 0, flip_x: false, flip_y: false, palette: 0 },
        TileRef { tile: 0, flip_x: true, flip_y: false, palette: 0 },
    ]);
}

/// Identical cells deduplicate: two equal cells yield one unique tile and
/// two identity references to it.
pub proof fn lemma_identical_cells_dedup(a: Seq<ColorBGR555>)
    ensures
        extract_spec(seq![a, a], 0, Seq::empty(), Seq::empty()) == (
            seq![a],
            seq![
                TileRef { tile: 0, flip_x: false, flip_y: false, palette: 0 },
                TileRef { tile: 0, flip_x: false, flip_y: false, palette: 0 },
            ],
        ),
{
    let cells = seq![a, a];
    let e0 = Seq::<Seq<ColorBGR555>>::empty();
    let r0 = Seq::<TileRef>::empty();
    assert(find_match(cells[0], e0, 0) is None);
    let t1 = e0.push(cells[0]);
    let r1 = r0.push(TileRef { tile: 0, flip_x: false, flip_y: false, palette: 0 });
    assert(extract_spec(cells, 0, e0, r0) == extract_spec(cells, 1, t1, r1));
    assert(t1[0] == a);
    assert(match_flip(cells[1], t1[0]) == Some((false, false)));
    assert(find_match(cells[1], t1, 0) == Some((0int, false, false)));
    let r2 = r1.push(TileRef { tile: 0, flip_x: false, flip_y: false, palette: 0 });
    assert(extract_spec(cells, 1, t1, r1) == extract_spec(cells, 2, t1, r2));
    assert(extract_spec(cells, 2, t1, r2) == (t1, r2));
    assert(t1 =~= seq![a]);
    assert(r2 =~= seq![
        TileRef { tile: 0, flip_x: false, flip_y: false, palette: 0 },
        TileRef { tile: 0, flip_x: false, flip_y: false, palette: 0 },
    ]);
}

/// A contained color has a first occurrence.
pub proof fn lemma_contains_first_index(s: Seq<ColorBGR555>, c: ColorBGR555)
    requires
        s.contains(c),
    ensures
        first_index(s, c, 0) is Some,
{
    let w = choose|k: int| 0 <= k < s.len() && s[k] == c;
    lemma_first_index_some_upto(s, c, 0, w);
}

/// If an occurrence exists at or after `i`, the search from `i` finds one.
pub proof fn lemma_first_index_some_upto(s: Seq<ColorBGR555>, c: ColorBGR555, i: int, w: int)
    requires
        0 <= i <= w < s.len(),
        s[w] == c,
    ensures
        first_index(s, c, i) is Some,
    decreases w - i,
{
    if s[i] != c {
        lemma_first_index_some_upto(s, c, i + 1, w);
    }
}

} // verus!
