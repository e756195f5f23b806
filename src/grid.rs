use vstd::prelude::*;
use crate::vector::Vector2d;
use vstd::string::StringSliceAdditionalSpecFns;

verus! {

/// The newline byte that ends each row of a grid's text.
pub const NEWLINE: u8 = 10;

/// Whether `t` is `h` rows of `w` bytes each, every row ended by a newline
/// (the last one's newline may be missing when rows are not empty), with no
/// newline inside a row.
pub open spec fn rectangular(t: Seq<u8>, w: nat, h: nat) -> bool {
    &&& h >= 1
    &&& (t.len() == h * (w + 1) || (w >= 1 && t.len() == h * (w + 1) - 1))
    &&& forall|i: int| 0 <= i < t.len() ==> (#[trigger] t[i] == NEWLINE <==> i % ((w + 1) as int) == w)
}

/// Why a text is not a grid.
#[derive(Clone, Copy, Debug, PartialEq, Eq, Structural)]
pub enum GridError {
    /// The text holds no line.
    Empty,
    /// The lines do not all have the length of the first one.
    Ragged,
    /// The text is too long for every coordinate to fit an `i32`.
    TooLarge,
}

/// A rectangular block of bytes, kept as its text with the line breaks, so
/// that the cell at `(x, y)` sits at offset `x + y * (width + 1)`.
pub struct Grid {
    pub width: usize,
    pub height: usize,
    pub text: Vec<u8>,
}

/// What a grid holds: its size and its text.
pub struct GridView {
    pub width: nat,
    pub height: nat,
    pub text: Seq<u8>,
}

impl GridView {
    /// Whether `(x, y)` is a cell of the grid.
    pub open spec fn in_bounds(&self, x: int, y: int) -> bool {
        0 <= x < self.width && 0 <= y < self.height
    }

    /// The byte at cell `(x, y)`.
    pub open spec fn cell(&self, x: int, y: int) -> u8 {
        self.text[x + y * (self.width + 1)]
    }
}

impl View for Grid {
    type V = GridView;

    open spec fn view(&self) -> GridView {
        GridView { width: self.width as nat, height: self.height as nat, text: self.text@ }
    }
}

/// Offsets of cells stay inside a rectangular text.
proof fn lemma_offset_in_text(x: int, y: int, w: int, h: int)
    requires
        0 <= x < w,
        0 <= y < h,
    ensures
        0 <= x + y * (w + 1) <= h * (w + 1) - 2,
{
    assert(y * (w + 1) <= (h - 1) * (w + 1)) by (nonlinear_arith)
        requires
            0 <= y <= h - 1,
            w >= 0,
    ;
    assert((h - 1) * (w + 1) == h * (w + 1) - (w + 1)) by (nonlinear_arith);
    assert(y * (w + 1) >= 0) by (nonlinear_arith)
        requires
            y >= 0,
            w >= 0,
    ;
}

/// A text has at most one rectangular reading.
pub proof fn lemma_rectangular_unique(t: Seq<u8>, w1: nat, h1: nat, w2: nat, h2: nat)
    requires
        rectangular(t, w1, h1),
        rectangular(t, w2, h2),
    ensures
        w1 == w2,
        h1 == h2,
{
    assert(h1 * (w1 + 1) >= w1 + 1) by (nonlinear_arith)
        requires
            h1 >= 1,
    ;
    assert(h2 * (w2 + 1) >= w2 + 1) by (nonlinear_arith)
        requires
            h2 >= 1,
    ;
    if w1 < w2 {
        assert((w1 as int) % ((w1 + 1) as int) == w1) by (nonlinear_arith);
        assert((w1 as int) % ((w2 + 1) as int) == w1) by (nonlinear_arith)
            requires
                w1 < w2,
        ;
        if w1 < t.len() {
            assert(t[w1 as int] == NEWLINE);
        }
    } else if w2 < w1 {
        assert((w2 as int) % ((w2 + 1) as int) == w2) by (nonlinear_arith);
        assert((w2 as int) % ((w1 + 1) as int) == w2) by (nonlinear_arith)
            requires
                w2 < w1,
        ;
        if w2 < t.len() {
            assert(t[w2 as int] == NEWLINE);
        }
    }
    assert(w1 == w2);
    if h1 != h2 {
        assert(h1 * (w1 + 1) != h2 * (w1 + 1)) by (nonlinear_arith)
            requires
                h1 != h2,
        ;
        if h1 < h2 {
            assert(h1 * (w1 + 1) + (w1 + 1) <= h2 * (w1 + 1)) by (nonlinear_arith)
                requires
                    h1 < h2,
            ;
        } else {
            assert(h2 * (w1 + 1) + (w1 + 1) <= h1 * (w1 + 1)) by (nonlinear_arith)
                requires
                    h2 < h1,
            ;
        }
    }
}

impl Grid {
    /// Well-formed: the text is `height` rows of `width` cells, and it is
    /// shorter than `i32::MAX` bytes, so that every coordinate fits an `i32`.
    pub open spec fn wf(&self) -> bool {
        &&& rectangular(self.text@, self.width as nat, self.height as nat)
        &&& self.text@.len() < i32::MAX
        &&& self.width < i32::MAX
        &&& self.height <= i32::MAX
    }

    /// A well-formed grid has no more cells than bytes of text.
    pub proof fn lemma_cells_fit(&self)
        requires
            self.wf(),
        ensures
            self.width * self.height <= self.text@.len(),
            self.width * self.height < i32::MAX,
    {
        assert(self.height * (self.width + 1) - 1 >= self.width * self.height) by (nonlinear_arith)
            requires
                self.height >= 1,
        ;
    }

    /// The number of cells.
    pub fn cell_count(&self) -> (r: usize)
        requires
            self.wf(),
        ensures
            r == self.width * self.height,
            r < i32::MAX,
    {
        proof {
            self.lemma_cells_fit();
        }
        self.width * self.height
    }

    /// The byte at `(x, y)`, or `None` where that lies outside the grid.
    pub fn get_at(&self, x: i64, y: i64) -> (r: Option<u8>)
        requires
            self.wf(),
        ensures
            r == if self.in_bounds(x as int, y as int) {
                Some(self.cell(x as int, y as int))
            } else {
                None
            },
    {
        if x < 0 || y < 0 || x >= self.width as i64 || y >= self.height as i64 {
            return None;
        }
        self.get(Vector2d(x as i32, y as i32))
    }

    /// Whether `(x, y)` is a cell of the grid.
    pub open spec fn in_bounds(&self, x: int, y: int) -> bool {
        0 <= x < self.width && 0 <= y < self.height
    }

    /// The byte at cell `(x, y)`.
    pub open spec fn cell(&self, x: int, y: int) -> u8 {
        self.text@[x + y * (self.width + 1)]
    }

    /// What `get` returns for a position.
    pub open spec fn spec_get(&self, v: Vector2d) -> Option<u8> {
        if self.in_bounds(v.0 as int, v.1 as int) {
            Some(self.cell(v.0 as int, v.1 as int))
        } else {
            None
        }
    }

    /// Reads the text as a grid: the width is the length of the first line and
    /// the height the number of lines. A text whose lines differ in length is
    /// refused, as is one with no line, and one of `i32::MAX` bytes or more.
    pub fn new(input: &str) -> (r: Result<Grid, GridError>)
        ensures
            match r {
                Ok(g) => g.wf() && g.text@ == input.spec_bytes() && input.spec_bytes().len() < i32::MAX,
                Err(GridError::Empty) => input.spec_bytes().len() == 0,
                Err(GridError::Ragged) => 0 < input.spec_bytes().len() < i32::MAX && forall|w: nat, h: nat|
                    !rectangular(input.spec_bytes(), w, h),
                Err(GridError::TooLarge) => input.spec_bytes().len() >= i32::MAX,
            },
            r is Err ==> forall|g: Grid| !(#[trigger] g.wf() && g.text@ == input.spec_bytes()),
    {
        let bytes = input.as_bytes();
        Grid::from_bytes(bytes)
    }

    /// As `new`, on the bytes of the text.
    pub fn from_bytes(bytes: &[u8]) -> (r: Result<Grid, GridError>)
        ensures
            match r {
                Ok(g) => g.wf() && g.text@ == bytes@ && bytes@.len() < i32::MAX,
                Err(GridError::Empty) => bytes@.len() == 0,
                Err(GridError::Ragged) => 0 < bytes@.len() < i32::MAX && forall|w: nat, h: nat|
                    !rectangular(bytes@, w, h),
                Err(GridError::TooLarge) => bytes@.len() >= i32::MAX,
            },
            r is Err ==> forall|g: Grid| !(#[trigger] g.wf() && g.text@ == bytes@),
    {
        let r = Grid::read_rows(bytes);
        proof {
            if r is Err {
                assert forall|g: Grid| !(#[trigger] g.wf() && g.text@ == bytes@) by {
                    if g.wf() && g.text@ == bytes@ {
                        assert(g.height * (g.width + 1) >= g.width + 1) by (nonlinear_arith)
                            requires
                                g.height >= 1,
                        ;
                        assert(rectangular(g.text@, g.width as nat, g.height as nat));
                    }
                }
            }
        }
        r
    }

    /// Checks the rows of the text and measures them.
    fn read_rows(bytes: &[u8]) -> (r: Result<Grid, GridError>)
        ensures
            match r {
                Ok(g) => g.wf() && g.text@ == bytes@ && bytes@.len() < i32::MAX,
                Err(GridError::Empty) => bytes@.len() == 0,
                Err(GridError::Ragged) => 0 < bytes@.len() < i32::MAX && forall|w: nat, h: nat|
                    !rectangular(bytes@, w, h),
                Err(GridError::TooLarge) => bytes@.len() >= i32::MAX,
            },
    {
        let t = bytes;
        let len = t.len();
        if len == 0 {
            return Err(GridError::Empty);
        }
        if len >= i32::MAX as usize {
            return Err(GridError::TooLarge);
        }
        let mut w: usize = 0;
        while w < len && t[w] != NEWLINE
            invariant
                w <= len,
                len == t@.len(),
                forall|i: int| 0 <= i < w ==> t@[i] != NEWLINE,
            decreases len - w,
        {
            w = w + 1;
        }
        // every rectangular reading of the text has this width
        proof {
            assert forall|w2: nat, h2: nat| rectangular(t@, w2, h2) implies w2 == w by {
                if w2 < w {
                    assert((w2 as int) % ((w2 + 1) as int) == w2) by (nonlinear_arith);
                    assert(h2 * (w2 + 1) >= w2 + 1) by (nonlinear_arith)
                        requires
                            h2 >= 1,
                    ;
                    assert(t@[w2 as int] == NEWLINE);
                } else if w2 > w {
                    if w < len {
                        assert((w as int) % ((w2 + 1) as int) == w) by (nonlinear_arith)
                            requires
                                w < w2,
                        ;
                        assert(t@[w as int] == NEWLINE);
                    } else {
                        assert(h2 * (w2 + 1) >= w2 + 1) by (nonlinear_arith)
                            requires
                                h2 >= 1,
                        ;
                    }
                }
            }
        }
        let stride = w + 1;
        let mut i: usize = 0;
        while i < len
            invariant
                i <= len,
                len == t@.len(),
                t@ == bytes@,
                0 < len < i32::MAX,
                stride == w + 1,
                forall|j: int| 0 <= j < i ==> (#[trigger] t@[j] == NEWLINE <==> j % (w + 1) == w),
                forall|w2: nat, h2: nat| rectangular(t@, w2, h2) ==> w2 == w,
            decreases len - i,
        {
            let at_end = i % stride == w;
            if (t[i] == NEWLINE) != at_end {
                proof {
                    assert forall|w2: nat, h2: nat| !rectangular(t@, w2, h2) by {
                        if rectangular(t@, w2, h2) {
                            assert(w2 == w);
                            assert(t@[i as int] == NEWLINE <==> (i as int) % ((w2 + 1) as int)
                                == w2);
                            assert(at_end == ((i as int) % (stride as int) == w));
                        }
                    }
                }
                return Err(GridError::Ragged);
            }
            i = i + 1;
        }
        let rem = len % stride;
        let h: usize = if rem == 0 {
            len / stride
        } else if rem == w && w >= 1 {
            len / stride + 1
        } else {
            proof {
                assert forall|w2: nat, h2: nat| !rectangular(t@, w2, h2) by {
                    if rectangular(t@, w2, h2) {
                        assert(w2 == w);
                        if len == h2 * stride {
                            assert((h2 * stride) % (stride as int) == 0) by (nonlinear_arith)
                                requires
                                    stride >= 1,
                            ;
                        } else {
                            assert((h2 * stride - 1) % (stride as int) == w) by (nonlinear_arith)
                                requires
                                    stride == w + 1,
                                    w >= 1,
                                    h2 >= 1,
                            ;
                        }
                    }
                }
            }
            return Err(GridError::Ragged);
        };
        proof {
            if rem == 0 {
                assert(len == h * stride) by (nonlinear_arith)
                    requires
                        rem == len % stride,
                        h == len / stride,
                        rem == 0,
                        stride >= 1,
                ;
                assert(h >= 1) by (nonlinear_arith)
                    requires
                        len == h * stride,
                        len > 0,
                ;
            } else {
                assert(len == h * stride - 1) by (nonlinear_arith)
                    requires
                        rem == len % stride,
                        h == len / stride + 1,
                        rem == w,
                        stride == w + 1,
                ;
            }
            assert(rectangular(t@, w as nat, h as nat));
            assert(h <= len) by (nonlinear_arith)
                requires
                    h * stride <= len + 1,
                    stride == w + 1,
                    h >= 1,
                    w == 0 ==> h * stride == len,
            ;
        }
        let text = vstd::slice::slice_to_vec(t);
        Ok(Grid { width: w, height: h, text })
    }

    /// The byte at `v`, or `None` where `v` lies outside the grid.
    pub fn get(&self, v: Vector2d) -> (r: Option<u8>)
        requires
            self.wf(),
        ensures
            r == self.spec_get(v),
    {
        if v.0 < 0 || v.0 as usize >= self.width {
            return None;
        }
        if v.1 < 0 || v.1 as usize >= self.height {
            return None;
        }
        let x = v.0 as usize;
        let y = v.1 as usize;
        proof {
            lemma_offset_in_text(x as int, y as int, self.width as int, self.height as int);
            assert(y * (self.width + 1) <= x + y * (self.width + 1)) by (nonlinear_arith)
                requires
                    x >= 0,
            ;
            assert(self.text@.len() >= self.height * (self.width + 1) - 1);
        }
        let stride = self.width + 1;
        let n = self.text.len();
        proof {
            assert(y * stride <= x + y * stride) by (nonlinear_arith)
                requires
                    x >= 0,
                    y >= 0,
                    stride >= 0,
            ;
            assert(x + y * stride <= self.height * stride - 2);
            assert(self.text@.len() >= self.height * stride - 1);
            assert(y * stride < n);
        }
        let row = y * stride;
        Some(self.text[x + row])
    }

    /// Every cell with its byte, row by row from the top, each row from the left.
    pub fn iter(&self) -> (r: Vec<(Vector2d, u8)>)
        requires
            self.wf(),
        ensures
            r@.len() == self.width * self.height,
            forall|i: int|
                0 <= i < r@.len() ==> {
                    let (v, b) = #[trigger] r@[i];
                    &&& v.0 == i % (self.width as int)
                    &&& v.1 == i / (self.width as int)
                    &&& self.in_bounds(v.0 as int, v.1 as int)
                    &&& b == self.cell(v.0 as int, v.1 as int)
                },
    {
        let mut r: Vec<(Vector2d, u8)> = Vec::new();
        let w = self.width;
        let mut y: usize = 0;
        while y < self.height
            invariant
                self.wf(),
                w == self.width,
                y <= self.height,
                r@.len() == y * w,
                forall|i: int|
                    0 <= i < r@.len() ==> {
                        let (v, b) = #[trigger] r@[i];
                        &&& v.0 == i % (w as int)
                        &&& v.1 == i / (w as int)
                        &&& self.in_bounds(v.0 as int, v.1 as int)
                        &&& b == self.cell(v.0 as int, v.1 as int)
                    },
            decreases self.height - y,
        {
            let mut x: usize = 0;
            while x < w
                invariant
                    self.wf(),
                    w == self.width,
                    y < self.height,
                    x <= w,
                    r@.len() == y * w + x,
                    forall|i: int|
                        0 <= i < r@.len() ==> {
                            let (v, b) = #[trigger] r@[i];
                            &&& v.0 == i % (w as int)
                            &&& v.1 == i / (w as int)
                            &&& self.in_bounds(v.0 as int, v.1 as int)
                            &&& b == self.cell(v.0 as int, v.1 as int)
                        },
                decreases w - x,
            {
                let v = Vector2d(x as i32, y as i32);
                let b = self.get(v);
                proof {
                    let k = y * w + x;
                    assert(k % (w as int) == x && k / (w as int) == y) by (nonlinear_arith)
                        requires
                            k == y * w + x,
                            x < w,
                    ;
                }
                r.push((v, b.unwrap()));
                x = x + 1;
            }
            proof {
                assert(y * w + w == (y + 1) * w) by (nonlinear_arith);
            }
            y = y + 1;
        }
        proof {
            assert(self.height * w == w * self.height) by (nonlinear_arith);
        }
        r
    }
}

} // verus!
