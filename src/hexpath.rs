//! The hexadecimal grid of the path finder: a rectangle of byte-valued
//! cells, its four-way neighbourhood, the colour band of a value, the map
//! file format, and the xorshift generator that fills random maps.
use crate::hextool::{error_str, error_text, parse_unsigned, parse_unsigned_range, IntErrorKind};
use crate::text::{lines_of, split_lines, split_words, trim_str, trimmed, words_of};
use vstd::prelude::*;
use vstd::string::{StringExecFns, StringSliceAdditionalSpecFns};

verus! {

/// One xorshift step: `s ^= s << 13; s ^= s >> 7; s ^= s << 17`, all in 64
/// bits.
pub open spec fn xorshift(s: u64) -> u64 {
    let a = s ^ (s << 13u64);
    let b = a ^ (a >> 7u64);
    b ^ (b << 17u64)
}

/// The state reached from `s` after `n` xorshift steps.
pub open spec fn xorshift_after(s: u64, n: nat) -> u64
    decreases n,
{
    if n == 0 {
        s
    } else {
        xorshift(xorshift_after(s, (n - 1) as nat))
    }
}

/// The value in `min..=max` that a generator whose new state is `s` yields.
pub open spec fn in_range(s: u64, min: u8, max: u8) -> u8 {
    (min as int + (s as int) % ((max - min) as int + 1)) as u8
}

/// A small xorshift pseudo-random generator.
#[derive(Debug)]
pub struct SimplePrng {
    pub state: u64,
}

/// Relies on `SystemTime::now` and `duration_since(UNIX_EPOCH)`: the
/// nanoseconds since the epoch, truncated to 64 bits (0 for a clock set
/// before the epoch). Nothing is promised of the value.
#[verifier::external_body]
fn clock_nanos() -> (r: u64) {
    match std::time::SystemTime::now().duration_since(std::time::UNIX_EPOCH) {
        Ok(d) => d.as_nanos() as u64,
        Err(_) => 0,
    }
}

impl SimplePrng {
    /// A generator seeded from the clock.
    pub fn new() -> SimplePrng {
        SimplePrng::from_seed(clock_nanos())
    }

    /// A generator with the given state.
    pub fn from_seed(seed: u64) -> (r: SimplePrng)
        ensures
            r.state == seed,
    {
        SimplePrng { state: seed }
    }

    /// Advances the generator one xorshift step and maps the new state into
    /// `min..=max` by remainder.
    pub fn gen_range(&mut self, min: u8, max: u8) -> (r: u8)
        requires
            min <= max,
        ensures
            final(self).state == xorshift(old(self).state),
            r == in_range(final(self).state, min, max),
            min <= r <= max,
    {
        self.state = self.state ^ (self.state << 13);
        self.state = self.state ^ (self.state >> 7);
        self.state = self.state ^ (self.state << 17);
        let range: u64 = (max - min) as u64 + 1;
        min + ((self.state % range) as u8)
    }
}

/// A grid of byte-valued cells, stored row by row.
#[derive(Debug)]
pub struct Grid {
    pub cells: Vec<Vec<u8>>,
    pub width: usize,
    pub height: usize,
}

/// The neighbours of `(x, y)` in a `w` by `h` grid, in the order left,
/// right, up, down, leaving out those beyond an edge.
pub open spec fn neighbor_cells(x: usize, y: usize, w: usize, h: usize) -> Seq<(usize, usize)> {
    (if x > 0 { seq![((x - 1) as usize, y)] } else { seq![] }) + (if x + 1 < w {
        seq![((x + 1) as usize, y)]
    } else {
        seq![]
    }) + (if y > 0 { seq![(x, (y - 1) as usize)] } else { seq![] }) + (if y + 1 < h {
        seq![(x, (y + 1) as usize)]
    } else {
        seq![]
    })
}

impl Grid {
    /// Every row has `width` cells and there are `height` rows.
    pub open spec fn wf(&self) -> bool {
        &&& self.cells@.len() == self.height
        &&& forall|y: int| 0 <= y < self.height ==> #[trigger] self.cells@[y]@.len() == self.width
    }

    /// The value of cell `(x, y)`.
    pub open spec fn cell(&self, x: int, y: int) -> u8 {
        self.cells@[y]@[x]
    }

    /// A grid over the given rows; its width is that of the first row.
    pub fn new(cells: Vec<Vec<u8>>) -> (r: Grid)
        ensures
            r.cells@ == cells@,
            r.height == cells@.len(),
            r.width == (if cells@.len() > 0 { cells@[0]@.len() } else { 0 }),
    {
        let height = cells.len();
        let width = if height > 0 { cells[0].len() } else { 0 };
        Grid { cells, width, height }
    }

    /// The value of cell `(x, y)`.
    pub fn get(&self, x: usize, y: usize) -> (r: u8)
        requires
            y < self.cells@.len(),
            x < self.cells@[y as int]@.len(),
        ensures
            r == self.cell(x as int, y as int),
    {
        self.cells[y][x]
    }

    /// The cells next to `(x, y)`: left, right, up and down, as far as the
    /// grid reaches.
    pub fn neighbors(&self, x: usize, y: usize) -> (r: Vec<(usize, usize)>)
        requires
            self.width >= 1,
            self.height >= 1,
        ensures
            r@ == neighbor_cells(x, y, self.width, self.height),
    {
        let mut result: Vec<(usize, usize)> = Vec::new();
        if x > 0 {
            result.push((x - 1, y));
        }
        if x < self.width - 1 {
            result.push((x + 1, y));
        }
        if y > 0 {
            result.push((x, y - 1));
        }
        if y < self.height - 1 {
            result.push((x, y + 1));
        }
        assert(result@ =~= neighbor_cells(x, y, self.width, self.height));
        result
    }
}

/// The terminal colour of a cell value: eight bands of 32 values, from red
/// through orange, yellow, green, cyan, blue and purple to magenta.
pub open spec fn color_of(value: u8) -> Seq<char> {
    if value < 0x20 {
        "\x1b[38;5;196m"@
    } else if value < 0x40 {
        "\x1b[38;5;208m"@
    } else if value < 0x60 {
        "\x1b[38;5;226m"@
    } else if value < 0x80 {
        "\x1b[38;5;46m"@
    } else if value < 0xA0 {
        "\x1b[38;5;51m"@
    } else if value < 0xC0 {
        "\x1b[38;5;21m"@
    } else if value < 0xE0 {
        "\x1b[38;5;129m"@
    } else {
        "\x1b[38;5;201m"@
    }
}

/// The ANSI escape that selects the colour of a cell value.
pub fn get_color(value: u8) -> (r: &'static str)
    ensures
        r@ == color_of(value),
{
    if value <= 0x1F {
        "\x1b[38;5;196m"
    } else if value <= 0x3F {
        "\x1b[38;5;208m"
    } else if value <= 0x5F {
        "\x1b[38;5;226m"
    } else if value <= 0x7F {
        "\x1b[38;5;46m"
    } else if value <= 0x9F {
        "\x1b[38;5;51m"
    } else if value <= 0xBF {
        "\x1b[38;5;21m"
    } else if value <= 0xDF {
        "\x1b[38;5;129m"
    } else {
        "\x1b[38;5;201m"
    }
}

/// The value at `(x, y)` of a `w` by `h` map filled from a generator seeded
/// with `seed`: the start corner holds `0x00`, the far corner `0xFF`, and
/// every other cell, taken row by row, the next draw in `0x01..=0xFE`.
pub open spec fn map_cell(seed: u64, w: int, h: int, x: int, y: int) -> u8 {
    if x == w - 1 && y == h - 1 {
        0xFF
    } else if x == 0 && y == 0 {
        0x00
    } else {
        in_range(xorshift_after(seed, (y * w + x) as nat), 0x01, 0xFE)
    }
}

/// A random `width` by `height` map drawn from a generator seeded with
/// `seed`.
pub fn generate_map_seeded(width: usize, height: usize, seed: u64) -> (r: Grid)
    requires
        width >= 1,
        height >= 1,
    ensures
        r.wf(),
        r.width == width,
        r.height == height,
        forall|x: int, y: int|
            0 <= x < width && 0 <= y < height ==> #[trigger] r.cell(x, y) == map_cell(
                seed,
                width as int,
                height as int,
                x,
                y,
            ),
{
    let mut rng = SimplePrng::from_seed(seed);
    let mut cells: Vec<Vec<u8>> = Vec::new();
    let ghost w = width as int;
    let ghost h = height as int;
    let ghost mut k: int = 0;
    let mut y: usize = 0;
    while y < height
        invariant
            y <= height,
            w == width,
            h == height,
            w >= 1,
            k == y * w,
            y < height ==> rng.state == xorshift_after(
                seed,
                (if k == 0 { 0 } else { k - 1 }) as nat,
            ),
            cells@.len() == y,
            forall|yy: int| 0 <= yy < y ==> #[trigger] cells@[yy]@.len() == width,
            forall|xx: int, yy: int|
                0 <= xx < width && 0 <= yy < y ==> #[trigger] cells@[yy]@[xx] == map_cell(
                    seed,
                    w,
                    h,
                    xx,
                    yy,
                ),
        decreases height - y,
    {
        let mut row: Vec<u8> = Vec::new();
        let mut x: usize = 0;
        while x < width
            invariant
                x <= width,
                y < height,
                w == width,
                h == height,
                w >= 1,
                k == y * w + x,
                x < width || y + 1 < height ==> rng.state == xorshift_after(
                    seed,
                    (if k == 0 { 0 } else { k - 1 }) as nat,
                ),
                row@.len() == x,
                forall|xx: int| 0 <= xx < x ==> #[trigger] row@[xx] == map_cell(seed, w, h, xx, y as int),
            decreases width - x,
        {
            if x == width - 1 && y == height - 1 {
                row.push(0xFF);
            } else if x == 0 && y == 0 {
                row.push(0x00);
            } else {
                proof {
                    if y > 0 {
                        assert(y * w >= w) by (nonlinear_arith)
                            requires
                                y >= 1,
                                w >= 1,
                        ;
                    }
                    assert(k >= 1);
                    assert(xorshift_after(seed, k as nat) == xorshift(
                        xorshift_after(seed, (k - 1) as nat),
                    ));
                }
                let v = rng.gen_range(0x01, 0xFE);
                assert(v == map_cell(seed, w, h, x as int, y as int));
                row.push(v);
            }
            proof {
                k = k + 1;
            }
            assert(row@[x as int] == map_cell(seed, w, h, x as int, y as int));
            x = x + 1;
        }
        cells.push(row);
        proof {
            assert((y + 1) * w == y * w + w) by (nonlinear_arith);
        }
        y = y + 1;
    }
    Grid::new(cells)
}

/// A random `width` by `height` map seeded from the clock: `0x00` at the
/// start corner, `0xFF` at the far one, and `0x01..=0xFE` everywhere else.
pub fn generate_map(width: usize, height: usize) -> (r: Grid)
    requires
        width >= 1,
        height >= 1,
    ensures
        r.wf(),
        r.width == width,
        r.height == height,
        r.cell(width - 1, height - 1) == 0xFF,
        width > 1 || height > 1 ==> r.cell(0, 0) == 0x00,
        forall|x: int, y: int|
            0 <= x < width && 0 <= y < height && !(x == 0 && y == 0) && !(x == width - 1 && y
                == height - 1) ==> 0x01 <= #[trigger] r.cell(x, y) <= 0xFE,
{
    let rng = SimplePrng::new();
    generate_map_seeded(width, height, rng.state)
}

/// A map token read as a byte in hexadecimal, as `u8::from_str_radix`
/// reads it.
pub open spec fn token_value(t: Seq<char>) -> Result<u64, IntErrorKind> {
    parse_unsigned(vstd::utf8::encode_utf8(t), 16, 255)
}

/// The bytes of a row of tokens, or the refusal of its first bad token.
pub open spec fn row_values(ws: Seq<Seq<char>>) -> Result<Seq<u8>, IntErrorKind>
    decreases ws.len(),
{
    if ws.len() == 0 {
        Ok(seq![])
    } else {
        match token_value(ws[0]) {
            Err(k) => Err(k),
            Ok(v) => match row_values(ws.skip(1)) {
                Ok(rest) => Ok(seq![v as u8] + rest),
                Err(k) => Err(k),
            },
        }
    }
}

/// The bytes of every row, or the refusal of the first bad token.
pub open spec fn rows_values(rows: Seq<Seq<Seq<char>>>) -> Result<Seq<Seq<u8>>, IntErrorKind>
    decreases rows.len(),
{
    if rows.len() == 0 {
        Ok(seq![])
    } else {
        match row_values(rows[0]) {
            Err(k) => Err(k),
            Ok(r) => match rows_values(rows.skip(1)) {
                Ok(rest) => Ok(seq![r] + rest),
                Err(k) => Err(k),
            },
        }
    }
}

/// The cells of a map given as rows of tokens: refused for a bad token, for
/// no rows at all, or for rows of different lengths.
pub open spec fn map_cells(rows: Seq<Seq<Seq<char>>>) -> Result<Seq<Seq<u8>>, Seq<char>> {
    match rows_values(rows) {
        Err(k) => Err("Invalid hex value: "@ + error_text(k)),
        Ok(cells) => if cells.len() == 0 {
            Err("Empty map"@)
        } else if exists|i: int| 0 <= i < cells.len() && #[trigger] cells[i].len() != cells[0].len() {
            Err("Inconsistent row lengths"@)
        } else {
            Ok(cells)
        },
    }
}

/// The rows of a map text: the words of every line that is not blank.
pub open spec fn map_rows(lines: Seq<Seq<char>>) -> Seq<Seq<Seq<char>>>
    decreases lines.len(),
{
    if lines.len() == 0 {
        seq![]
    } else {
        let rest = map_rows(lines.drop_last());
        if trimmed(lines.last()).len() == 0 {
            rest
        } else {
            rest.push(words_of(trimmed(lines.last())))
        }
    }
}

/// What a list of rows of tokens holds, as characters.
pub open spec fn rows_text(rows: Seq<Vec<&str>>) -> Seq<Seq<Seq<char>>> {
    rows.map_values(|r: Vec<&str>| r@.map_values(|w: &str| w@))
}

/// The rows of a grid as byte sequences.
pub open spec fn grid_rows(cells: Seq<Vec<u8>>) -> Seq<Seq<u8>> {
    cells.map_values(|r: Vec<u8>| r@)
}

fn parse_row(ws: &Vec<&str>) -> (r: Result<Vec<u8>, IntErrorKind>)
    ensures
        r is Ok <==> row_values(ws@.map_values(|w: &str| w@)) is Ok,
        r is Ok ==> r->Ok_0@ == row_values(ws@.map_values(|w: &str| w@))->Ok_0,
        r is Err ==> r->Err_0 == row_values(ws@.map_values(|w: &str| w@))->Err_0,
{
    let ghost text = ws@.map_values(|w: &str| w@);
    let mut out: Vec<u8> = Vec::new();
    let mut i: usize = 0;
    proof {
        assert(text.skip(0) =~= text);
        if row_values(text) is Ok {
            assert(out@ + row_values(text)->Ok_0 =~= row_values(text)->Ok_0);
        }
    }
    while i < ws.len()
        invariant
            i <= ws@.len(),
            text == ws@.map_values(|w: &str| w@),
            row_values(text) == (match row_values(text.skip(i as int)) {
                Ok(rest) => Ok(out@ + rest),
                Err(k) => Err::<Seq<u8>, IntErrorKind>(k),
            }),
        decreases ws@.len() - i,
    {
        let b = ws[i].as_bytes();
        let ghost t = text.skip(i as int);
        assert(t[0] == ws@[i as int]@);
        match parse_unsigned_range(b, 0, b.len(), 16, 255) {
            Err(k) => {
                assert(b@.subrange(0, b@.len() as int) =~= b@);
                return Err(k);
            },
            Ok(v) => {
                assert(b@.subrange(0, b@.len() as int) =~= b@);
                let ghost before = out@;
                out.push(v as u8);
                assert(t.skip(1) =~= text.skip(i + 1));
                proof {
                    let rest = row_values(text.skip(i + 1));
                    if rest is Ok {
                        assert(before + (seq![v as u8] + rest->Ok_0) =~= out@ + rest->Ok_0);
                    }
                }
            },
        }
        i = i + 1;
    }
    assert(text.skip(ws@.len() as int) =~= Seq::<Seq<char>>::empty());
    assert(out@ + seq![] =~= out@);
    Ok(out)
}

/// Builds a grid from rows of hexadecimal tokens: each token is one cell,
/// and every row must be as long as the first.
pub fn parse_map_rows(rows: &Vec<Vec<&str>>) -> (r: Result<Grid, String>)
    ensures
        r is Ok <==> map_cells(rows_text(rows@)) is Ok,
        r is Ok ==> grid_rows(r->Ok_0.cells@) == map_cells(rows_text(rows@))->Ok_0 && r->Ok_0.wf()
            && r->Ok_0.height == rows@.len(),
        r is Err ==> r->Err_0@ == map_cells(rows_text(rows@))->Err_0,
{
    proof {
        reveal_strlit("Invalid hex value: ");
        reveal_strlit("Empty map");
        reveal_strlit("Inconsistent row lengths");
    }
    let ghost text = rows_text(rows@);
    let mut cells: Vec<Vec<u8>> = Vec::new();
    let mut i: usize = 0;
    proof {
        assert(text.skip(0) =~= text);
        assert(grid_rows(cells@) =~= Seq::<Seq<u8>>::empty());
        if rows_values(text) is Ok {
            assert(grid_rows(cells@) + rows_values(text)->Ok_0 =~= rows_values(text)->Ok_0);
        }
    }
    while i < rows.len()
        invariant
            i <= rows@.len(),
            text == rows_text(rows@),
            rows_values(text) == (match rows_values(text.skip(i as int)) {
                Ok(rest) => Ok(grid_rows(cells@) + rest),
                Err(k) => Err::<Seq<Seq<u8>>, IntErrorKind>(k),
            }),
            cells@.len() == i,
        decreases rows@.len() - i,
    {
        let ghost t = text.skip(i as int);
        assert(t[0] == rows@[i as int]@.map_values(|w: &str| w@));
        match parse_row(&rows[i]) {
            Err(k) => {
                let mut m = String::new();
                m.append("Invalid hex value: ");
                m.append(error_str(k));
                return Err(m);
            },
            Ok(row) => {
                let ghost before = grid_rows(cells@);
                cells.push(row);
                assert(t.skip(1) =~= text.skip(i + 1));
                proof {
                    let rest = rows_values(text.skip(i + 1));
                    assert(grid_rows(cells@) =~= before.push(cells@[i as int]@));
                    if rest is Ok {
                        assert(before + (seq![cells@[i as int]@] + rest->Ok_0) =~= grid_rows(cells@)
                            + rest->Ok_0);
                    }
                }
            },
        }
        i = i + 1;
    }
    assert(text.skip(rows@.len() as int) =~= Seq::<Seq<Seq<char>>>::empty());
    assert(grid_rows(cells@) + seq![] =~= grid_rows(cells@));
    if cells.len() == 0 {
        let mut m = String::new();
        m.append("Empty map");
        return Err(m);
    }
    let width = cells[0].len();
    let mut j: usize = 0;
    while j < cells.len()
        invariant
            j <= cells@.len(),
            cells@.len() > 0,
            text == rows_text(rows@),
            rows_values(text) == Ok::<Seq<Seq<u8>>, IntErrorKind>(grid_rows(cells@)),
            width == cells@[0]@.len(),
            forall|y: int| 0 <= y < j ==> #[trigger] cells@[y]@.len() == width,
        decreases cells@.len() - j,
    {
        if cells[j].len() != width {
            proof {
                assert(grid_rows(cells@)[j as int].len() != grid_rows(cells@)[0].len());
            }
            let mut m = String::new();
            m.append("Inconsistent row lengths");
            return Err(m);
        }
        j = j + 1;
    }
    proof {
        let g = grid_rows(cells@);
        assert forall|y: int| 0 <= y < g.len() implies #[trigger] g[y].len() == g[0].len() by {
            assert(cells@[y]@.len() == width);
        }
    }
    Ok(Grid::new(cells))
}

/// Reads a map file's text: every line that is not blank is a row of
/// hexadecimal cell values separated by white space.
pub fn parse_map(content: &str) -> (r: Result<Grid, String>)
    ensures
        r is Ok <==> map_cells(map_rows(lines_of(content@))) is Ok,
        r is Ok ==> grid_rows(r->Ok_0.cells@) == map_cells(map_rows(lines_of(content@)))->Ok_0
            && r->Ok_0.wf(),
        r is Err ==> r->Err_0@ == map_cells(map_rows(lines_of(content@)))->Err_0,
{
    let lines = split_lines(content);
    let ghost ls = lines_of(content@);
    let mut rows: Vec<Vec<&str>> = Vec::new();
    let mut i: usize = 0;
    while i < lines.len()
        invariant
            i <= lines@.len(),
            lines@.len() == ls.len(),
            forall|k: int| 0 <= k < lines@.len() ==> #[trigger] lines@[k]@ == ls[k],
            rows_text(rows@) == map_rows(ls.take(i as int)),
        decreases lines@.len() - i,
    {
        let t = trim_str(lines[i]);
        assert(ls.take(i + 1).drop_last() =~= ls.take(i as int));
        if !t.is_empty() {
            let ws = split_words(t);
            let ghost before = rows_text(rows@);
            rows.push(ws);
            proof {
                assert(ws@.map_values(|w: &str| w@) =~= words_of(t@));
                assert(rows_text(rows@) =~= before.push(words_of(t@)));
            }
        }
        i = i + 1;
    }
    assert(ls.take(lines@.len() as int) =~= ls);
    parse_map_rows(&rows)
}

} // verus!
