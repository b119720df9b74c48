//! A text picture of a position, for diagnostics.

use vstd::prelude::*;

use crate::board::{Board, Bug, Color, Id};
use crate::hex::{key_of, lemma_loc_key_injective, Loc};

verus! {

/// Relies on `String::push`: it appends the character to the end of the string.
#[verifier::external_body]
fn push_char(s: &mut String, c: char)
    ensures
        final(s)@ == old(s)@.push(c),
{
    s.push(c)
}

/// The glyph that shows a bug.
pub open spec fn bug_glyph(b: Bug) -> char {
    match b {
        Bug::Queen => '\u{1f41d}',
        Bug::Grasshopper => '\u{1f997}',
        Bug::Spider => '\u{1f577}',
        Bug::Ant => '\u{1f41c}',
        Bug::Beetle => '\u{1fab2}',
    }
}

fn glyph(b: Bug) -> (r: char)
    ensures
        r == bug_glyph(b),
{
    match b {
        Bug::Queen => '\u{1f41d}',
        Bug::Grasshopper => '\u{1f997}',
        Bug::Spider => '\u{1f577}',
        Bug::Ant => '\u{1f41c}',
        Bug::Beetle => '\u{1fab2}',
    }
}

/// A full-width period: an empty cell, and half a cell of indentation.
pub open spec fn blank() -> char {
    '\u{ff0e}'
}

/// Terminal escape that starts italics, used for White's tiles.
pub open spec fn italic_on() -> Seq<char> {
    seq!['\x1b', '[', '3', 'm']
}

/// Terminal escape that resets the style.
pub open spec fn style_off() -> Seq<char> {
    seq!['\x1b', '[', 'm']
}

/// The indentation of a row `k` half-cells deep: a space when `k` is odd, then a
/// full-width period per two half-cells.
pub open spec fn indent(k: int) -> Seq<char> {
    (if k % 2 == 1 {
        seq![' ']
    } else {
        Seq::empty()
    }) + Seq::new((k / 2) as nat, |i: int| blank())
}

/// The box `(x, width, y, height)` that holds every occupied cell and no less; the
/// box (0, 1, 0, 1) on a board without tiles.
pub open spec fn is_bounding_box(b: Board, bb: (i16, i16, i16, i16)) -> bool {
    if exists|i: int| 0 <= i < b.len() && #[trigger] b.occupied(i) {
        &&& exists|i: int| 0 <= i < b.len() && #[trigger] b.occupied(i) && b.loc_of(i).0 == bb.0
        &&& exists|i: int|
            0 <= i < b.len() && #[trigger] b.occupied(i) && b.loc_of(i).0 == bb.0 + bb.1 - 1
        &&& exists|i: int| 0 <= i < b.len() && #[trigger] b.occupied(i) && b.loc_of(i).1 == bb.2
        &&& exists|i: int|
            0 <= i < b.len() && #[trigger] b.occupied(i) && b.loc_of(i).1 == bb.2 + bb.3 - 1
        &&& forall|i: int|
            0 <= i < b.len() && #[trigger] b.occupied(i) ==> bb.0 <= b.loc_of(i).0 < bb.0 + bb.1
                && bb.2 <= b.loc_of(i).1 < bb.2 + bb.3
    } else {
        bb == (0i16, 1i16, 0i16, 1i16)
    }
}

impl Board {
    /// The text of the cell at (x, y): the glyph of its top tile, in italics for
    /// White, or a full-width period.
    pub open spec fn cell_text(self, x: int, y: int) -> Seq<char> {
        let loc = (x as i8, y as i8);
        if self.has_loc(loc) && self.occupied(self.id_at(loc) as int) {
            let t = self.top(self.id_at(loc) as int)->0;
            if t.color == Color::White {
                italic_on() + seq![bug_glyph(t.bug)] + style_off()
            } else {
                seq![bug_glyph(t.bug)]
            }
        } else {
            seq![blank()]
        }
    }

    /// The cells (x0 .. x0 + n, y), left to right.
    pub open spec fn cells_text(self, x0: int, n: int, y: int) -> Seq<char>
        decreases n,
    {
        if n <= 0 {
            Seq::empty()
        } else {
            self.cells_text(x0, n - 1, y) + self.cell_text(x0 + n - 1, y)
        }
    }

    /// The row at `y` of the picture of box `bb`, with its line break.
    pub open spec fn row_text(self, bb: (i16, i16, i16, i16), y: int) -> Seq<char> {
        indent(bb.3 + bb.2 - y) + self.cells_text(bb.0 - 1, bb.1 + 2, y) + seq!['\n']
    }

    /// The first `n` rows of the picture of box `bb`, top down from one row above it.
    pub open spec fn rows_text(self, bb: (i16, i16, i16, i16), n: int) -> Seq<char>
        decreases n,
    {
        if n <= 0 {
            Seq::empty()
        } else {
            self.rows_text(bb, n - 1) + self.row_text(bb, bb.2 - 1 + n - 1)
        }
    }

    /// The smallest box around the occupied cells, as (x, width, y, height).
    pub fn bounding_box(&self) -> (r: (i16, i16, i16, i16))
        requires
            self.wf(),
        ensures
            is_bounding_box(*self, r),
            -127 <= r.0,
            r.0 + r.1 <= 126,
            -127 <= r.2,
            r.2 + r.3 <= 126,
            1 <= r.1,
            1 <= r.3,
    {
        let mut minx: i16 = 127;
        let mut maxx: i16 = -128;
        let mut miny: i16 = 127;
        let mut maxy: i16 = -128;
        let ghost mut wx: int = 0;
        let ghost mut wX: int = 0;
        let ghost mut wy: int = 0;
        let ghost mut wY: int = 0;
        let mut found = false;
        let n = self.id_to_loc.len();
        let mut id: usize = 0;
        while id < n
            invariant
                self.wf(),
                n == self.len(),
                0 <= id <= n,
                found == exists|i: int| 0 <= i < id && #[trigger] self.occupied(i),
                found ==> {
                    &&& 1 <= wx < id && self.occupied(wx) && self.loc_of(wx).0 == minx
                    &&& 1 <= wX < id && self.occupied(wX) && self.loc_of(wX).0 == maxx
                    &&& 1 <= wy < id && self.occupied(wy) && self.loc_of(wy).1 == miny
                    &&& 1 <= wY < id && self.occupied(wY) && self.loc_of(wY).1 == maxy
                },
                forall|i: int|
                    0 <= i < id && #[trigger] self.occupied(i) ==> minx <= self.loc_of(i).0 <= maxx
                        && miny <= self.loc_of(i).1 <= maxy,
            decreases n - id,
        {
            if self.is_occupied(id as Id) {
                let loc = self.id_to_loc[id];
                proof {
                    assert(id != 0);
                }
                if !found || (loc.0 as i16) < minx {
                    minx = loc.0 as i16;
                    proof {
                        wx = id as int;
                    }
                }
                if !found || (loc.0 as i16) > maxx {
                    maxx = loc.0 as i16;
                    proof {
                        wX = id as int;
                    }
                }
                if !found || (loc.1 as i16) < miny {
                    miny = loc.1 as i16;
                    proof {
                        wy = id as int;
                    }
                }
                if !found || (loc.1 as i16) > maxy {
                    maxy = loc.1 as i16;
                    proof {
                        wY = id as int;
                    }
                }
                found = true;
            }
            id += 1;
        }
        if !found {
            return (0, 1, 0, 1);
        }
        proof {
            assert(loc_in_range_of(*self, wx));
            assert(loc_in_range_of(*self, wX));
            assert(loc_in_range_of(*self, wy));
            assert(loc_in_range_of(*self, wY));
        }
        (minx, maxx - minx + 1, miny, maxy - miny + 1)
    }

    /// The top tile at (x, y), if that location has a cell.
    fn tile_at(&self, x: i16, y: i16) -> (r: Option<(Bug, Color)>)
        requires
            self.wf(),
            -128 <= x <= 126,
            -128 <= y <= 126,
        ensures
            r is Some <==> self.has_loc((x as i8, y as i8)) && self.occupied(
                self.id_at((x as i8, y as i8)) as int,
            ),
            r is Some ==> r->0 == (
                self.top(self.id_at((x as i8, y as i8)) as int)->0.bug,
                self.top(self.id_at((x as i8, y as i8)) as int)->0.color,
            ),
    {
        let loc: Loc = (x as i8, y as i8);
        let key = key_of(loc);
        proof {
            lemma_loc_key_injective(loc, loc);
        }
        match self.loc_to_id.get(&key) {
            None => None,
            Some(id) => {
                let id = *id;
                proof {
                    assert(self.loc_to_id@.contains_key(key));
                }
                match self.get(id) {
                    Some(t) => Some((t.bug, t.color)),
                    None => None,
                }
            },
        }
    }

    /// A picture of the board, one text row per hex row, shifted to stagger the rows,
    /// with a margin of one cell around the tiles.
    pub fn fancy_fmt(&self) -> (r: String)
        requires
            self.wf(),
        ensures
            exists|bb: (i16, i16, i16, i16)|
                is_bounding_box(*self, bb) && r@ == #[trigger] self.rows_text(bb, bb.3 + 2),
    {
        let mut out = String::new();
        let (startx, dx, starty, dy) = self.bounding_box();
        let ghost bb = (startx, dx, starty, dy);
        let mut y: i16 = starty - 1;
        proof {
            assert(out@ =~= self.rows_text(bb, 0));
        }
        while y < starty + dy + 1
            invariant
                self.wf(),
                bb == (startx, dx, starty, dy),
                -127 <= startx,
                startx + dx <= 126,
                -127 <= starty,
                starty + dy <= 126,
                1 <= dx,
                1 <= dy,
                starty - 1 <= y <= starty + dy + 1,
                out@ == self.rows_text(bb, y - (starty - 1)),
            decreases starty + dy + 1 - y,
        {
            let ghost before = out@;
            // Print prefix to get staggered hex rows
            let buflen = dy + starty - y;
            if buflen % 2 == 1 {
                push_char(&mut out, ' ');
            }
            let ghost after_space = out@;
            let mut k: i16 = 0;
            while k < buflen / 2
                invariant
                    0 <= buflen,
                    0 <= k <= buflen / 2,
                    out@ == after_space + Seq::new(k as nat, |i: int| blank()),
                decreases buflen / 2 - k,
            {
                push_char(&mut out, '\u{ff0e}');
                k += 1;
                proof {
                    assert(out@ =~= after_space + Seq::new(k as nat, |i: int| blank()));
                }
            }
            proof {
                assert(out@ =~= before + indent(buflen as int));
            }
            let ghost after_indent = out@;
            let mut x: i16 = startx - 1;
            while x < startx + dx + 1
                invariant
                    self.wf(),
                    -127 <= startx,
                    startx + dx <= 126,
                    -128 <= y <= 126,
                    startx - 1 <= x <= startx + dx + 1,
                    out@ == after_indent + self.cells_text(startx - 1, x - (startx - 1), y as int),
                decreases startx + dx + 1 - x,
            {
                let ghost prev = out@;
                match self.tile_at(x, y) {
                    Some((bug, color)) => {
                        if color == Color::White {
                            // Invert terminal background color for white pieces.
                            push_char(&mut out, '\x1b');
                            push_char(&mut out, '[');
                            push_char(&mut out, '3');
                            push_char(&mut out, 'm');
                        }
                        push_char(&mut out, glyph(bug));
                        if color == Color::White {
                            // Reset coloring.
                            push_char(&mut out, '\x1b');
                            push_char(&mut out, '[');
                            push_char(&mut out, 'm');
                        }
                    },
                    None => {
                        // Empty cell. Full width period.
                        push_char(&mut out, '\u{ff0e}');
                    },
                }
                proof {
                    assert(out@ =~= prev + self.cell_text(x as int, y as int));
                    assert(self.cells_text(startx - 1, x + 1 - (startx - 1), y as int)
                        == self.cells_text(startx - 1, x - (startx - 1), y as int)
                        + self.cell_text(x as int, y as int));
                }
                x += 1;
            }
            push_char(&mut out, '\n');
            proof {
                assert(out@ =~= before + self.row_text(bb, y as int));
            }
            y += 1;
        }
        proof {
            assert(y - (starty - 1) == bb.3 + 2);
            assert(out@ == self.rows_text(bb, bb.3 + 2));
            assert(is_bounding_box(*self, bb));
        }
        out
    }
}

/// Cell `i` of `b` has coordinates a board can hold.
pub open spec fn loc_in_range_of(b: Board, i: int) -> bool {
    -127 <= b.loc_of(i).0 <= 125 && -127 <= b.loc_of(i).1 <= 125
}

} // verus!
