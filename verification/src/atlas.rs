//! The font atlas: glyph bitmaps shelf-packed into one coverage texture.

use vstd::prelude::*;

verus! {

/// 512 wide keeps one-byte rows a multiple of 256 (no upload padding).
pub const ATLAS_WIDTH: u32 = 512;

/// The widest glyph that fits a row with padding on both sides.
pub const MAX_GLYPH_WIDTH: u32 = 510;

/// A rasterised glyph: one byte of coverage per pixel, row-major. Glyphs without
/// pixels (white space) take no room.
#[derive(Debug)]
pub struct Glyph {
    pub width: u32,
    pub height: u32,
    pub coverage: Vec<u8>,
}

impl Glyph {
    pub open spec fn blank(self) -> bool {
        self.width == 0 || self.height == 0
    }

    pub open spec fn valid(self) -> bool {
        &&& self.width <= MAX_GLYPH_WIDTH
        &&& self.coverage.len() == self.width * self.height
    }
}

/// The shelves after some glyphs: where the next glyph would go, how tall the
/// current shelf is, and where the glyphs went.
pub struct Shelves {
    pub x: int,
    pub y: int,
    pub row_h: int,
    pub places: Seq<Option<(u32, u32)>>,
}

impl Shelves {
    /// How tall the atlas is, padding included.
    pub open spec fn height(self) -> int {
        self.y + self.row_h + 1
    }
}

/// The shelves after one more glyph: it goes behind the last one, or, where the
/// shelf has no room for it, on a new shelf below.
pub open spec fn shelved(s: Shelves, g: Glyph) -> Shelves {
    if g.blank() {
        Shelves { places: s.places.push(None), ..s }
    } else {
        let wraps = s.x + g.width + 1 > ATLAS_WIDTH;
        let x = if wraps {
            1
        } else {
            s.x
        };
        let y = if wraps {
            s.y + s.row_h + 1
        } else {
            s.y
        };
        let row_h = if wraps {
            0
        } else {
            s.row_h
        };
        Shelves {
            x: x + g.width + 1,
            y,
            row_h: if row_h < g.height {
                g.height as int
            } else {
                row_h
            },
            places: s.places.push(Some((x as u32, y as u32))),
        }
    }
}

/// The shelves after the first `n` glyphs. Packing starts one pixel in from the
/// top left, which stays free.
pub open spec fn packed(glyphs: Seq<Glyph>, n: int) -> Shelves
    decreases n,
{
    if n <= 0 {
        Shelves { x: 1, y: 1, row_h: 0, places: Seq::empty() }
    } else {
        shelved(packed(glyphs, n - 1), glyphs[n - 1])
    }
}

/// Pixel (`x`, `y`) belongs to glyph `i`.
pub open spec fn holds(
    glyphs: Seq<Glyph>,
    places: Seq<Option<(u32, u32)>>,
    i: int,
    x: int,
    y: int,
) -> bool {
    places[i] matches Some(p) && p.0 <= x < p.0 + glyphs[i].width && p.1 <= y < p.1
        + glyphs[i].height
}

/// What packing keeps: glyphs stay off the left and top edge and inside the
/// shelves, and later glyphs stand apart from earlier ones.
spec fn sound(glyphs: Seq<Glyph>, s: Shelves, n: int) -> bool {
    &&& s.places.len() == n
    &&& 1 <= s.x <= ATLAS_WIDTH
    &&& 1 <= s.y
    &&& 0 <= s.row_h
    &&& forall|i: int|
        0 <= i < n ==> match #[trigger] s.places[i] {
            None => true,
            Some(p) => {
                &&& 1 <= p.0
                &&& p.0 + glyphs[i].width < ATLAS_WIDTH
                &&& 1 <= p.1
                &&& p.1 <= s.y
                &&& p.1 + glyphs[i].height <= s.y + s.row_h
                &&& p.1 == s.y ==> p.0 + glyphs[i].width < s.x
                &&& p.1 < s.y ==> p.1 + glyphs[i].height < s.y
            },
        }
    &&& forall|i: int, j: int|
        #![trigger s.places[i], s.places[j]]
        0 <= i < j < n ==> stand_apart(glyphs, s.places, i, j)
}

/// Glyph `j` stands to the right of glyph `i` on the same shelf, or on a lower
/// shelf; at least a pixel lies between them.
pub open spec fn stand_apart(
    glyphs: Seq<Glyph>,
    places: Seq<Option<(u32, u32)>>,
    i: int,
    j: int,
) -> bool {
    match (places[i], places[j]) {
        (Some(p), Some(q)) => {
            ||| p.1 == q.1 && p.0 + glyphs[i].width < q.0
            ||| p.1 + glyphs[i].height < q.1
        },
        _ => true,
    }
}

proof fn lemma_sound(glyphs: Seq<Glyph>, n: int)
    requires
        0 <= n <= glyphs.len(),
        packed(glyphs, n).height() <= u32::MAX,
        forall|i: int| 0 <= i < n ==> (#[trigger] glyphs[i]).width <= MAX_GLYPH_WIDTH,
    ensures
        sound(glyphs, packed(glyphs, n), n),
        n > 0 ==> packed(glyphs, n - 1).height() <= packed(glyphs, n).height(),
    decreases n,
{
    if n > 0 {
        let g = glyphs[n - 1];
        let s = packed(glyphs, n - 1);
        let t = packed(glyphs, n);
        lemma_height_grows(glyphs, n);
        lemma_sound(glyphs, n - 1);
        assert forall|i: int| 0 <= i < n implies match #[trigger] t.places[i] {
            None => true,
            Some(p) => {
                &&& 1 <= p.0
                &&& p.0 + glyphs[i].width < ATLAS_WIDTH
                &&& 1 <= p.1
                &&& p.1 <= t.y
                &&& p.1 + glyphs[i].height <= t.y + t.row_h
                &&& p.1 == t.y ==> p.0 + glyphs[i].width < t.x
                &&& p.1 < t.y ==> p.1 + glyphs[i].height < t.y
            },
        } by {
            if i < n - 1 {
                assert(t.places[i] == s.places[i]);
            }
        }
        assert forall|i: int, j: int|
            #![trigger t.places[i], t.places[j]]
            0 <= i < j < n implies stand_apart(glyphs, t.places, i, j) by {
            assert(t.places[i] == s.places[i]);
            if j < n - 1 {
                assert(t.places[j] == s.places[j]);
                assert(stand_apart(glyphs, s.places, i, j));
            }
        }
    }
}

proof fn lemma_height_grows(glyphs: Seq<Glyph>, n: int)
    requires
        0 < n <= glyphs.len(),
    ensures
        packed(glyphs, n - 1).height() <= packed(glyphs, n).height(),
        1 <= packed(glyphs, n - 1).y <= packed(glyphs, n).y,
        0 <= packed(glyphs, n - 1).row_h,
        0 <= packed(glyphs, n).row_h,
    decreases n,
{
    if n > 1 {
        lemma_height_grows(glyphs, n - 1);
    }
}

proof fn lemma_height_below(glyphs: Seq<Glyph>, k: int, n: int)
    requires
        0 <= k <= n <= glyphs.len(),
    ensures
        packed(glyphs, k).height() <= packed(glyphs, n).height(),
    decreases n - k,
{
    if k < n {
        lemma_height_below(glyphs, k, n - 1);
        lemma_height_grows(glyphs, n);
    }
}

/// No two glyphs share a pixel.
pub proof fn glyphs_do_not_overlap(glyphs: Seq<Glyph>, i: int, j: int, x: int, y: int)
    requires
        packed(glyphs, glyphs.len() as int).height() <= u32::MAX,
        forall|k: int| 0 <= k < glyphs.len() ==> (#[trigger] glyphs[k]).width <= MAX_GLYPH_WIDTH,
        0 <= i < glyphs.len(),
        0 <= j < glyphs.len(),
        i != j,
        holds(glyphs, packed(glyphs, glyphs.len() as int).places, i, x, y),
    ensures
        !holds(glyphs, packed(glyphs, glyphs.len() as int).places, j, x, y),
{
    let n = glyphs.len() as int;
    let s = packed(glyphs, n);
    lemma_sound(glyphs, n);
    if i < j {
        assert(stand_apart(glyphs, s.places, i, j));
    } else {
        assert(stand_apart(glyphs, s.places, j, i));
    }
}

/// Every glyph stays inside the texture and off its first row and column, which
/// stay free.
pub proof fn glyphs_leave_the_edge_free(glyphs: Seq<Glyph>, i: int, x: int, y: int)
    requires
        packed(glyphs, glyphs.len() as int).height() <= u32::MAX,
        forall|k: int| 0 <= k < glyphs.len() ==> (#[trigger] glyphs[k]).width <= MAX_GLYPH_WIDTH,
        0 <= i < glyphs.len(),
        holds(glyphs, packed(glyphs, glyphs.len() as int).places, i, x, y),
    ensures
        1 <= x < ATLAS_WIDTH,
        1 <= y < packed(glyphs, glyphs.len() as int).height(),
{
    let n = glyphs.len() as int;
    lemma_sound(glyphs, n);
    assert(packed(glyphs, n).places[i] is Some);
}

/// The packed texture: its size, its pixels row by row, and where each glyph
/// went.
#[derive(Debug)]
pub struct Atlas {
    pub height: u32,
    pub pixels: Vec<u8>,
    pub places: Vec<Option<(u32, u32)>>,
}

impl Atlas {
    pub open spec fn texel(self, x: int, y: int) -> u8 {
        self.pixels@[y * 512 + x]
    }
}

fn pack(glyphs: &Vec<Glyph>) -> (r: (Vec<Option<(u32, u32)>>, u32))
    requires
        packed(glyphs@, glyphs.len() as int).height() <= u32::MAX,
        forall|i: int| 0 <= i < glyphs.len() ==> (#[trigger] glyphs@[i]).width <= MAX_GLYPH_WIDTH,
    ensures
        r.0@ == packed(glyphs@, glyphs.len() as int).places,
        r.1 == packed(glyphs@, glyphs.len() as int).height(),
{
    let mut places: Vec<Option<(u32, u32)>> = Vec::new();
    let mut x: u32 = 1;
    let mut y: u32 = 1;
    let mut row_h: u32 = 0;
    let mut i: usize = 0;
    while i < glyphs.len()
        invariant
            i <= glyphs.len(),
            packed(glyphs@, glyphs.len() as int).height() <= u32::MAX,
            forall|k: int| 0 <= k < glyphs.len() ==> (#[trigger] glyphs@[k]).width <= MAX_GLYPH_WIDTH,
            places@ == packed(glyphs@, i as int).places,
            x == packed(glyphs@, i as int).x,
            y == packed(glyphs@, i as int).y,
            row_h == packed(glyphs@, i as int).row_h,
            1 <= x <= ATLAS_WIDTH,
        decreases glyphs.len() - i,
    {
        let g = &glyphs[i];
        proof {
            lemma_height_below(glyphs@, i as int, glyphs.len() as int);
            lemma_height_below(glyphs@, i as int + 1, glyphs.len() as int);
        }
        if g.width == 0 || g.height == 0 {
            places.push(None);
        } else {
            if x + g.width + 1 > ATLAS_WIDTH {
                x = 1;
                y = y + row_h + 1;
                row_h = 0;
            }
            places.push(Some((x, y)));
            if row_h < g.height {
                row_h = g.height;
            }
            x = x + g.width + 1;
        }
        i = i + 1;
    }
    proof {
        lemma_height_below(glyphs@, i as int, glyphs.len() as int);
    }
    (places, y + row_h + 1)
}

/// Copy a glyph's coverage to (`px`, `py`).
fn blit(pixels: &mut Vec<u8>, height: u32, g: &Glyph, px: u32, py: u32)
    requires
        old(pixels).len() == height * 512,
        g.valid(),
        px + g.width <= ATLAS_WIDTH,
        py + g.height <= height,
    ensures
        final(pixels).len() == old(pixels).len(),
        forall|x: int, y: int|
            0 <= x < 512 && 0 <= y < height ==> #[trigger] final(pixels)@[y * 512 + x] == (if px <= x
                < px + g.width && py <= y < py + g.height {
                g.coverage@[(y - py) * g.width + (x - px)]
            } else {
                old(pixels)@[y * 512 + x]
            }),
{
    let ghost before = pixels@;
    let mut row: u32 = 0;
    let mut base: usize = 0;
    proof {
        assert(0 * g.width == 0) by (nonlinear_arith);
    }
    while row < g.height
        invariant
            row <= g.height,
            base == row * g.width,
            g.valid(),
            px + g.width <= ATLAS_WIDTH,
            py + g.height <= height,
            before.len() == height * 512,
            pixels.len() == before.len(),
            forall|x: int, y: int|
                0 <= x < 512 && 0 <= y < height ==> #[trigger] pixels@[y * 512 + x] == (if px <= x < px
                    + g.width && py <= y < py + row {
                    g.coverage@[(y - py) * g.width + (x - px)]
                } else {
                    before[y * 512 + x]
                }),
        decreases g.height - row,
    {
        let ghost above = pixels@;
        let mut col: u32 = 0;
        proof {
            assert((row + 1) * g.width == row * g.width + g.width) by (nonlinear_arith);
            assert((row + 1) * g.width <= g.height * g.width) by (nonlinear_arith)
                requires
                    row + 1 <= g.height,
                    0 <= g.width,
            ;
            assert(g.height * g.width == g.width * g.height) by (nonlinear_arith);
        }
        while col < g.width
            invariant
                row < g.height,
                col <= g.width,
                base == row * g.width,
                base + g.width <= g.coverage.len(),
                px + g.width <= ATLAS_WIDTH,
                py + g.height <= height,
                above.len() == height * 512,
                pixels.len() == above.len(),
                forall|x: int, y: int|
                    0 <= x < 512 && 0 <= y < height ==> #[trigger] pixels@[y * 512 + x] == (if px <= x
                        < px + col && y == py + row {
                        g.coverage@[row * g.width + (x - px)]
                    } else {
                        above[y * 512 + x]
                    }),
            decreases g.width - col,
        {
            let at: usize = (py + row) as usize * 512 + (px + col) as usize;
            let ghost here = pixels@;
            pixels.set(at, g.coverage[base + col as usize]);
            proof {
                assert forall|x: int, y: int| 0 <= x < 512 && 0 <= y < height implies #[trigger] pixels@[y
                    * 512 + x] == (if px <= x < px + col + 1 && y == py + row {
                    g.coverage@[row * g.width + (x - px)]
                } else {
                    above[y * 512 + x]
                }) by {
                    assert(here[y * 512 + x] == (if px <= x < px + col && y == py + row {
                        g.coverage@[row * g.width + (x - px)]
                    } else {
                        above[y * 512 + x]
                    }));
                }
            }
            col = col + 1;
        }
        base = base + g.width as usize;
        proof {
            assert forall|x: int, y: int| 0 <= x < 512 && 0 <= y < height implies #[trigger] pixels@[y
                * 512 + x] == (if px <= x < px + g.width && py <= y < py + row + 1 {
                g.coverage@[(y - py) * g.width + (x - px)]
            } else {
                before[y * 512 + x]
            }) by {
                assert(above[y * 512 + x] == (if px <= x < px + g.width && py <= y < py + row {
                    g.coverage@[(y - py) * g.width + (x - px)]
                } else {
                    before[y * 512 + x]
                }));
            }
        }
        row = row + 1;
    }
}

/// Pack glyphs into an atlas. Every pixel of a glyph holds the glyph's coverage;
/// the top-left pixel is fully opaque, for drawing solid shapes through the same
/// texture; all others are empty.
pub fn build(glyphs: &Vec<Glyph>) -> (a: Atlas)
    requires
        packed(glyphs@, glyphs.len() as int).height() <= u32::MAX,
        packed(glyphs@, glyphs.len() as int).height() * 512 <= usize::MAX,
        forall|i: int| 0 <= i < glyphs.len() ==> (#[trigger] glyphs@[i]).valid(),
    ensures
        a.height == packed(glyphs@, glyphs.len() as int).height(),
        a.places@ == packed(glyphs@, glyphs.len() as int).places,
        a.pixels.len() == a.height * 512,
        a.texel(0, 0) == 255,
        forall|i: int, x: int, y: int|
            0 <= i < glyphs.len() && #[trigger] holds(glyphs@, a.places@, i, x, y) ==> a.texel(x, y)
                == glyphs@[i].coverage@[(y - a.places@[i]->Some_0.1) * glyphs@[i].width + (x
                - a.places@[i]->Some_0.0)],
        forall|x: int, y: int|
            0 <= x < 512 && 0 <= y < a.height && (x != 0 || y != 0) && (forall|i: int|
                0 <= i < glyphs.len() ==> !holds(glyphs@, a.places@, i, x, y)) ==> #[trigger] a.texel(
                x,
                y,
            ) == 0,
{
    let (places, height) = pack(glyphs);
    let ghost n = glyphs.len() as int;
    proof {
        lemma_sound(glyphs@, n);
        lemma_height_below(glyphs@, 0, n);
    }
    let total: usize = height as usize * 512;
    let mut pixels: Vec<u8> = Vec::new();
    while pixels.len() < total
        invariant
            pixels.len() <= total,
            forall|k: int| 0 <= k < pixels.len() ==> #[trigger] pixels@[k] == 0,
        decreases total - pixels.len(),
    {
        pixels.push(0);
    }
    let mut i: usize = 0;
    while i < glyphs.len()
        invariant
            n == glyphs.len(),
            i <= glyphs.len(),
            height == packed(glyphs@, n).height(),
            pixels.len() == height * 512,
            places@ == packed(glyphs@, n).places,
            sound(glyphs@, packed(glyphs@, n), n),
            forall|k: int| 0 <= k < glyphs.len() ==> (#[trigger] glyphs@[k]).valid(),
            forall|k: int, x: int, y: int|
                0 <= k < i && #[trigger] holds(glyphs@, places@, k, x, y) ==> pixels@[y * 512 + x]
                    == glyphs@[k].coverage@[(y - places@[k]->Some_0.1) * glyphs@[k].width + (x
                    - places@[k]->Some_0.0)],
            forall|x: int, y: int|
                0 <= x < 512 && 0 <= y < height && (forall|k: int|
                    0 <= k < i ==> !holds(glyphs@, places@, k, x, y)) ==> #[trigger] pixels@[y * 512
                    + x] == 0,
        decreases glyphs.len() - i,
    {
        let ghost before = pixels@;
        if let Some((px, py)) = places[i] {
            let ghost s = packed(glyphs@, n);
            proof {
                assert(s.places[i as int] == Some((px, py)));
            }
            blit(&mut pixels, height, &glyphs[i], px, py);
            proof {
                assert forall|k: int, x: int, y: int| 0 <= k < i + 1 && #[trigger] holds(
                    glyphs@,
                    places@,
                    k,
                    x,
                    y,
                ) implies pixels@[y * 512 + x] == glyphs@[k].coverage@[(y - places@[k]->Some_0.1)
                    * glyphs@[k].width + (x - places@[k]->Some_0.0)] by {
                    assert(s.places[k] is Some);
                    if k < i {
                        assert(stand_apart(glyphs@, s.places, k, i as int));
                        assert(before[y * 512 + x] == pixels@[y * 512 + x]);
                    }
                }
                assert forall|x: int, y: int|
                    0 <= x < 512 && 0 <= y < height && (forall|k: int|
                        0 <= k < i + 1 ==> !holds(glyphs@, places@, k, x, y)) implies #[trigger] pixels@[y
                    * 512 + x] == 0 by {
                    assert(!holds(glyphs@, places@, i as int, x, y));
                    assert(before[y * 512 + x] == 0);
                }
            }
        } else {
            proof {
                assert forall|x: int, y: int|
                    0 <= x < 512 && 0 <= y < height && (forall|k: int|
                        0 <= k < i + 1 ==> !holds(glyphs@, places@, k, x, y)) implies #[trigger] pixels@[y
                    * 512 + x] == 0 by {
                    assert(before[y * 512 + x] == 0);
                }
            }
        }
        i = i + 1;
    }
    let ghost drawn = pixels@;
    pixels.set(0, 255);
    let a = Atlas { height, pixels, places };
    proof {
        let s = packed(glyphs@, n);
        assert forall|k: int, x: int, y: int| 0 <= k < glyphs.len() && #[trigger] holds(
            glyphs@,
            a.places@,
            k,
            x,
            y,
        ) implies a.texel(x, y) == glyphs@[k].coverage@[(y - a.places@[k]->Some_0.1)
            * glyphs@[k].width + (x - a.places@[k]->Some_0.0)] by {
            assert(s.places[k] is Some);
            assert(drawn[y * 512 + x] == a.pixels@[y * 512 + x]);
        }
        assert forall|x: int, y: int|
            0 <= x < 512 && 0 <= y < a.height && (x != 0 || y != 0) && (forall|k: int|
                0 <= k < glyphs.len() ==> !holds(glyphs@, a.places@, k, x, y)) implies #[trigger] a.texel(
            x,
            y,
        ) == 0 by {
            assert(drawn[y * 512 + x] == 0);
        }
    }
    a
}

/// Glyphs fill a shelf from left to right with a pixel between them; the first that does
/// not fit, with a pixel to spare, starts the next shelf a pixel below the tallest.
pub proof fn glyphs_fill_shelves(s: Shelves, g: Glyph)
    requires
        !g.blank(),
        1 <= s.x <= u32::MAX,
        0 <= s.y,
        0 <= s.row_h,
        s.y + s.row_h + 1 <= u32::MAX,
    ensures
        ({
            let t = shelved(s, g);
            let fits = s.x + g.width + 1 <= 512;
            &&& t.places.len() == s.places.len() + 1
            &&& t.places.drop_last() == s.places
            &&& fits ==> {
                &&& t.places.last() == Some((s.x as u32, s.y as u32))
                &&& t.x == s.x + g.width + 1 && t.y == s.y
                &&& t.row_h >= s.row_h && t.row_h >= g.height
                &&& t.row_h == s.row_h || t.row_h == g.height
            }
            &&& !fits ==> {
                &&& t.places.last() == Some((1u32, (s.y + s.row_h + 1) as u32))
                &&& t.x == g.width + 2 && t.y == s.y + s.row_h + 1
                &&& t.row_h == g.height
            }
        }),
{
    assert(shelved(s, g).places.drop_last() =~= s.places);
}

/// Glyphs without pixels take no room; packing starts a pixel in from both edges, and
/// the atlas ends a pixel below its last shelf.
pub proof fn blank_glyphs_take_no_room(s: Shelves, g: Glyph)
    requires
        g.width == 0 || g.height == 0,
    ensures
        ({
            let t = shelved(s, g);
            &&& t.x == s.x && t.y == s.y && t.row_h == s.row_h
            &&& t.places == s.places.push(None)
        }),
        s.height() == s.y + s.row_h + 1,
        forall|glyphs: Seq<Glyph>| (#[trigger] packed(glyphs, 0)).x == 1 && packed(glyphs, 0).y == 1 && packed(
            glyphs,
            0,
        ).row_h == 0 && packed(glyphs, 0).places.len() == 0,
        forall|glyphs: Seq<Glyph>, n: int| n > 0 ==> #[trigger] packed(glyphs, n) == shelved(
            packed(glyphs, n - 1),
            glyphs[n - 1],
        ),
{
}

/// Every pixel of a glyph stands in the texture at the glyph's place; the top-left pixel of the
/// texture is opaque, and what no glyph covers is empty.
pub proof fn textures_hold_the_glyphs(
    glyphs: &Vec<Glyph>,
    a: Atlas,
    i: int,
    col: int,
    row: int,
)
    requires
        call_ensures(build, (glyphs,), a),
        0 <= i < glyphs.len(),
        a.places@[i] is Some,
        0 <= col < glyphs@[i].width,
        0 <= row < glyphs@[i].height,
    ensures
        ({
            let (x, y) = a.places@[i]->Some_0;
            a.pixels@[(y + row) * 512 + (x + col)] == glyphs@[i].coverage@[row * glyphs@[i].width + col]
        }),
        a.pixels@[0] == 255,
        a.pixels.len() == a.height * 512,
{
    let (x, y) = a.places@[i]->Some_0;
    assert(holds(glyphs@, a.places@, i, x + col, y + row));
    assert(a.texel(x + col, y + row) == glyphs@[i].coverage@[(y + row - y) * glyphs@[i].width + (x
        + col - x)]);
    assert(a.texel(0, 0) == 255);
}

}
