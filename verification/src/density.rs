//! Population density on a coarse global lon/lat grid: the sidecar file it is
//! cached in, the cell a probe falls into, and the sums of a finer raster's
//! blocks. Numbers with a fraction are carried as IEEE-754 bit patterns.

use crate::bytes::{le_bytes, push_u32, u32_at, u64_at};
use crate::format::read_u32;
use crate::readback::{
    holds, lemma_holds_split, lemma_u32_reads, lemma_u32_table, lemma_u32_table_len,
};
use crate::sections::u32_table;
use vstd::prelude::*;
use vstd::string::*;

verus! {

/// The first bytes of a sidecar; they change with its layout.
pub const SIDECAR_MAGIC: [u8; 4] = [0x75, 0x54, 0x5A, 0x64];

/// The length of a sidecar before its cells.
pub const SIDECAR_HEADER: usize = 44;

/// How many source cells a grid cell spans along either axis.
pub const DOWNSAMPLE: usize = 8;

/// The file name of the sidecar.
pub const SIDECAR_NAME: &'static str = "ghs_pop_e2020_4326_ds8.bin";

/// A file's path in a directory, with one slash between them.
pub open spec fn path_in(dir: Seq<char>, name: Seq<char>) -> Seq<char> {
    if dir.len() == 0 || dir.last() == '/' {
        dir + name
    } else {
        dir + "/"@ + name
    }
}

/// The path of the density sidecar inside a cache directory.
#[must_use]
pub fn sidecar_path(cache_dir: &str) -> (path: String)
    ensures
        path@ == path_in(cache_dir@, SIDECAR_NAME@),
{
    let n: usize = cache_dir.unicode_len();
    let mut path = String::from_str(cache_dir);
    if n > 0 && cache_dir.get_char(n - 1) != '/' {
        path.append("/");
    }
    path.append(SIDECAR_NAME);
    path
}

/// Population density (people/km²) on a coarse global lon/lat grid. Row 0 is
/// the northernmost.
#[derive(Clone, Debug, PartialEq, Eq)]
pub struct DensityGrid {
    /// The grid's column count.
    pub width: usize,
    /// The grid's row count.
    pub height: usize,
    /// The west edge of cell (0,0), as the bits of a double.
    pub lon0: u64,
    /// The north edge of cell (0,0), as the bits of a double.
    pub lat0: u64,
    /// The cell width in degrees, as the bits of a double.
    pub dlon: u64,
    /// The cell height in degrees, as the bits of a double.
    pub dlat: u64,
    /// The row-major density samples, as the bits of singles.
    pub cells: Vec<u32>,
}

/// What a grid holds.
pub struct GridView {
    pub width: int,
    pub height: int,
    pub lon0: u64,
    pub lat0: u64,
    pub dlon: u64,
    pub dlat: u64,
    pub cells: Seq<u32>,
}

impl View for DensityGrid {
    type V = GridView;

    open spec fn view(&self) -> GridView {
        GridView {
            width: self.width as int,
            height: self.height as int,
            lon0: self.lon0,
            lat0: self.lat0,
            dlon: self.dlon,
            dlat: self.dlat,
            cells: self.cells@,
        }
    }
}

impl GridView {
    /// Whether there is one sample per cell.
    pub open spec fn wf(self) -> bool {
        self.cells.len() == self.width * self.height
    }

    /// Whether both dimensions fit the sidecar's fields.
    pub open spec fn storable(self) -> bool {
        0 <= self.width <= u32::MAX && 0 <= self.height <= u32::MAX
    }
}

/// Why a sidecar could not be read.
#[derive(Clone, Copy, PartialEq, Eq, Structural, Debug)]
pub enum SidecarError {
    /// It ends inside its header.
    Truncated,
    /// It does not start with the magic.
    BadMagic,
    /// Its cells do not fill its dimensions.
    SizeMismatch,
}

/// Eight little-endian bytes.
pub open spec fn u64_bytes(v: u64) -> Seq<u8> {
    le_bytes(v as int % 0x1_0000_0000, 4) + le_bytes(v as int / 0x1_0000_0000, 4)
}

/// Samples as integers.
pub open spec fn samples(cells: Seq<u32>) -> Seq<int> {
    cells.map_values(|c: u32| c as int)
}

/// The sidecar of a grid: the magic, the dimensions, the four edges and
/// steps, the cells row by row.
pub open spec fn sidecar_of(g: GridView) -> Seq<u8> {
    SIDECAR_MAGIC@ + (le_bytes(g.width, 4) + (le_bytes(g.height, 4) + (u64_bytes(g.lon0) + (
    u64_bytes(g.lat0) + (u64_bytes(g.dlon) + (u64_bytes(g.dlat) + u32_table(
        samples(g.cells),
        g.cells.len() as int,
    )))))))
}

/// The samples stored from byte `at` on.
pub open spec fn cells_at(b: Seq<u8>, at: int, n: int) -> Seq<u32> {
    Seq::new(n as nat, |i: int| u32_at(b, at + 4 * i) as u32)
}

/// The grid that a sidecar stores.
pub open spec fn grid_at(b: Seq<u8>) -> GridView {
    GridView {
        width: u32_at(b, 4),
        height: u32_at(b, 8),
        lon0: u64_at(b, 12) as u64,
        lat0: u64_at(b, 20) as u64,
        dlon: u64_at(b, 28) as u64,
        dlat: u64_at(b, 36) as u64,
        cells: cells_at(b, 44, u32_at(b, 4) * u32_at(b, 8)),
    }
}

/// What reading a sidecar gives.
pub open spec fn sidecar_read(b: Seq<u8>) -> Result<GridView, SidecarError> {
    if b.len() < 4 {
        Err(SidecarError::Truncated)
    } else if b.take(4) != SIDECAR_MAGIC@ {
        Err(SidecarError::BadMagic)
    } else if b.len() < SIDECAR_HEADER {
        Err(SidecarError::Truncated)
    } else if u32_at(b, 4) * u32_at(b, 8) * 4 != b.len() - SIDECAR_HEADER {
        Err(SidecarError::SizeMismatch)
    } else {
        Ok(grid_at(b))
    }
}

/// A double's eight bytes read back.
proof fn lemma_u64_bytes(b: Seq<u8>, at: int, v: u64, rest: Seq<u8>)
    requires
        holds(b, at, u64_bytes(v) + rest),
    ensures
        u64_at(b, at) == v,
        holds(b, at + 8, rest),
{
    let (lo, hi) = (le_bytes(v as int % 0x1_0000_0000, 4), le_bytes(v as int / 0x1_0000_0000, 4));
    assert(u64_bytes(v) == lo + hi && u64_bytes(v).len() == 8);
    lemma_holds_split(b, at, u64_bytes(v), rest);
    lemma_holds_split(b, at, lo, hi);
    lemma_u32_reads(b, at, v as int % 0x1_0000_0000);
    lemma_u32_reads(b, at + 4, v as int / 0x1_0000_0000);
}

/// A dimension's four bytes read back.
proof fn lemma_u32_bytes(b: Seq<u8>, at: int, v: int, rest: Seq<u8>)
    requires
        holds(b, at, le_bytes(v, 4) + rest),
        0 <= v <= u32::MAX,
    ensures
        u32_at(b, at) == v,
        holds(b, at + 4, rest),
{
    lemma_holds_split(b, at, le_bytes(v, 4), rest);
    lemma_u32_reads(b, at, v);
}

/// Where a sidecar stands, its fields read back and its cells follow.
proof fn lemma_fields(b: Seq<u8>, g: GridView)
    requires
        g.storable(),
        holds(b, 0, sidecar_of(g)),
    ensures
        b.take(4) == SIDECAR_MAGIC@,
        u32_at(b, 4) == g.width,
        u32_at(b, 8) == g.height,
        u64_at(b, 12) == g.lon0,
        u64_at(b, 20) == g.lat0,
        u64_at(b, 28) == g.dlon,
        u64_at(b, 36) == g.dlat,
        holds(b, 44, u32_table(samples(g.cells), g.cells.len() as int)),
{
    let w8 = u32_table(samples(g.cells), g.cells.len() as int);
    let w7 = u64_bytes(g.dlat) + w8;
    let w6 = u64_bytes(g.dlon) + w7;
    let w5 = u64_bytes(g.lat0) + w6;
    let w4 = u64_bytes(g.lon0) + w5;
    let w3 = le_bytes(g.height, 4) + w4;
    let w2 = le_bytes(g.width, 4) + w3;
    lemma_holds_split(b, 0, SIDECAR_MAGIC@, w2);
    assert(b.take(4) =~= b.subrange(0, 4));
    lemma_u32_bytes(b, 4, g.width, w3);
    lemma_u32_bytes(b, 8, g.height, w4);
    lemma_u64_bytes(b, 12, g.lon0, w5);
    lemma_u64_bytes(b, 20, g.lat0, w6);
    lemma_u64_bytes(b, 28, g.dlon, w7);
    lemma_u64_bytes(b, 36, g.dlat, w8);
}

/// Reading a written sidecar gives the grid back.
pub proof fn lemma_sidecar_round_trips(g: GridView)
    requires
        g.wf(),
        g.storable(),
    ensures
        sidecar_read(sidecar_of(g)) == Ok::<GridView, SidecarError>(g),
{
    let b = sidecar_of(g);
    let n = g.cells.len() as int;
    lemma_u32_table_len(samples(g.cells), n);
    assert(b.subrange(0, b.len() as int) =~= b);
    lemma_fields(b, g);
    lemma_sidecar_len(g);
    assert forall|i: int| 0 <= i < n implies cells_at(b, 44, n)[i] == g.cells[i] by {
        assert(samples(g.cells)[i] == g.cells[i]);
        lemma_u32_table(b, 44, samples(g.cells), n, i);
    }
    assert(cells_at(b, 44, n) =~= g.cells);
}

/// A sidecar is its header and four bytes per cell.
proof fn lemma_sidecar_len(g: GridView)
    ensures
        sidecar_of(g).len() == SIDECAR_HEADER + 4 * g.cells.len(),
{
    lemma_u32_table_len(samples(g.cells), g.cells.len() as int);
}

/// Appends a double's eight bytes.
fn push_u64(out: &mut Vec<u8>, v: u64)
    ensures
        final(out)@ == old(out)@ + u64_bytes(v),
{
    push_u32(out, (v % 0x1_0000_0000) as u32);
    push_u32(out, (v / 0x1_0000_0000) as u32);
    assert(out@ =~= old(out)@ + u64_bytes(v));
}

/// The little-endian `u64` at `position`.
fn read_u64(b: &[u8], position: usize) -> (v: u64)
    requires
        position + 8 <= b@.len(),
    ensures
        v == u64_at(b@, position as int),
{
    let n: usize = b.len();
    assert(position + 8 <= n);
    read_u32(b, position) as u64 + 0x1_0000_0000 * (read_u32(b, position + 4) as u64)
}

/// Whether the sidecar's first bytes are the magic.
fn has_magic(b: &[u8]) -> (has: bool)
    requires
        b@.len() >= 4,
    ensures
        has == (b@.take(4) == SIDECAR_MAGIC@),
{
    let has = b[0] == SIDECAR_MAGIC[0] && b[1] == SIDECAR_MAGIC[1] && b[2] == SIDECAR_MAGIC[2]
        && b[3] == SIDECAR_MAGIC[3];
    proof {
        if has {
            assert(b@.take(4) =~= SIDECAR_MAGIC@);
        } else {
            assert(b@.take(4)[0] == b@[0] && b@.take(4)[1] == b@[1] && b@.take(4)[2] == b@[2]
                && b@.take(4)[3] == b@[3]);
        }
    }
    has
}

impl DensityGrid {
    /// The bytes of the grid's sidecar.
    pub fn sidecar_bytes(&self) -> (out: Vec<u8>)
        requires
            self@.storable(),
        ensures
            out@ == sidecar_of(self@),
    {
        let mut out: Vec<u8> = Vec::new();
        out.push(SIDECAR_MAGIC[0]);
        out.push(SIDECAR_MAGIC[1]);
        out.push(SIDECAR_MAGIC[2]);
        out.push(SIDECAR_MAGIC[3]);
        assert(out@ =~= SIDECAR_MAGIC@);
        push_u32(&mut out, self.width as u32);
        push_u32(&mut out, self.height as u32);
        push_u64(&mut out, self.lon0);
        push_u64(&mut out, self.lat0);
        push_u64(&mut out, self.dlon);
        push_u64(&mut out, self.dlat);
        let ghost head = out@;
        let ghost cells = samples(self.cells@);
        let mut i: usize = 0;
        while i < self.cells.len()
            invariant
                i <= self.cells@.len(),
                cells == samples(self.cells@),
                out@ == head + u32_table(cells, i as int),
            decreases self.cells@.len() - i,
        {
            push_u32(&mut out, self.cells[i]);
            assert(out@ =~= head + u32_table(cells, i as int + 1));
            i = i + 1;
        }
        assert(out@ =~= sidecar_of(self@));
        out
    }

    /// Reads a sidecar.
    pub fn from_sidecar(b: &[u8]) -> (r: Result<DensityGrid, SidecarError>)
        ensures
            match r {
                Ok(grid) => sidecar_read(b@) == Ok::<GridView, SidecarError>(grid@) && grid@.wf(),
                Err(error) => sidecar_read(b@) == Err::<GridView, SidecarError>(error),
            },
    {
        let len: usize = b.len();
        if len < 4 {
            return Err(SidecarError::Truncated);
        }
        if !has_magic(b) {
            return Err(SidecarError::BadMagic);
        }
        if len < SIDECAR_HEADER {
            return Err(SidecarError::Truncated);
        }
        let width: u32 = read_u32(b, 4);
        let height: u32 = read_u32(b, 8);
        let body: usize = len - SIDECAR_HEADER;
        assert(width * height <= 0xFFFF_FFFF * 0xFFFF_FFFF) by (nonlinear_arith)
            requires
                0 <= width <= 0xFFFF_FFFF,
                0 <= height <= 0xFFFF_FFFF,
        ;
        let count: u64 = width as u64 * height as u64;
        if body % 4 != 0 || count != (body / 4) as u64 {
            return Err(SidecarError::SizeMismatch);
        }
        let n: usize = body / 4;
        let mut cells: Vec<u32> = Vec::new();
        let mut i: usize = 0;
        while i < n
            invariant
                i <= n,
                SIDECAR_HEADER + 4 * n == b@.len(),
                b@.len() <= usize::MAX,
                cells@.len() == i,
                forall|k: int| 0 <= k < i ==> #[trigger] cells@[k] == u32_at(b@, 44 + 4 * k) as u32,
            decreases n - i,
        {
            cells.push(read_u32(b, SIDECAR_HEADER + 4 * i));
            i = i + 1;
        }
        assert(cells@ =~= cells_at(b@, 44, n as int));
        Ok(
            DensityGrid {
                width: width as usize,
                height: height as usize,
                lon0: read_u64(b, 12),
                lat0: read_u64(b, 20),
                dlon: read_u64(b, 28),
                dlat: read_u64(b, 36),
                cells,
            },
        )
    }

    /// The sample at a column and a row: 0 outside the rows; outside the
    /// columns 0 too, unless the grid wraps round the globe.
    pub open spec fn sample_at(self, ix: int, iy: int, wraps: bool) -> u32 {
        if iy < 0 || iy >= self.height {
            0
        } else if wraps {
            self.cells@[iy * self.width + ix % (self.width as int)]
        } else if ix < 0 || ix >= self.width {
            0
        } else {
            self.cells@[iy * self.width + ix]
        }
    }

    /// The sample at a column and a row, as the bits of a single; see
    /// `sample_at`.
    pub fn cell_val(&self, ix: i64, iy: i64, wraps: bool) -> (bits: u32)
        requires
            self@.wf(),
            self.width <= i64::MAX,
            self.height <= i64::MAX,
            wraps ==> self.width > 0,
        ensures
            bits == self.sample_at(ix as int, iy as int, wraps),
    {
        if iy < 0 || iy >= self.height as i64 {
            return 0;
        }
        let width: i64 = self.width as i64;
        let column: i64 = if wraps {
            if ix >= 0 {
                ix % width
            } else {
                let past: i64 = -(ix + 1);
                proof {
                    lemma_wrapped(ix as int, width as int);
                }
                width - 1 - past % width
            }
        } else if ix < 0 || ix >= width {
            return 0;
        } else {
            ix
        };
        let total: usize = self.cells.len();
        proof {
            assert(self.width * self.height == total);
            assert(column == if wraps { ix as int % width as int } else { ix as int });
            lemma_in_grid(column as int, iy as int, self.width as int, self.height as int);
        }
        self.cells[iy as usize * self.width + column as usize]
    }
}

/// A cell of the grid has its place in the row-major samples.
proof fn lemma_in_grid(x: int, y: int, width: int, height: int)
    requires
        0 <= x < width,
        0 <= y < height,
    ensures
        0 <= y * width,
        0 <= y * width + x < width * height,
{
    assert(0 <= y * width && y * width + x < width * height) by (nonlinear_arith)
        requires
            0 <= x < width,
            0 <= y < height,
    ;
}

/// The remainder of a negative column, by way of the non-negative one that
/// truncating division gives.
proof fn lemma_wrapped(ix: int, width: int)
    requires
        ix < 0,
        width > 0,
    ensures
        (-(ix + 1)) % width == width - 1 - ix % width,
{
    let q = ix / width;
    let r = ix % width;
    assert(ix == q * width + r) by {
        vstd::arithmetic::div_mod::lemma_fundamental_div_mod(ix, width);
        assert(width * q == q * width) by (nonlinear_arith);
    }
    assert(-(ix + 1) == (-q - 1) * width + (width - 1 - r)) by (nonlinear_arith)
        requires
            ix == q * width + r,
    ;
    vstd::arithmetic::div_mod::lemma_fundamental_div_mod_converse(
        -(ix + 1),
        width,
        -q - 1,
        width - 1 - r,
    );
}

/// A tiled source raster: its size, and the size of the chunks it is stored
/// in, row by row.
#[derive(Clone, Copy, PartialEq, Eq, Structural, Debug)]
pub struct Raster {
    pub width: usize,
    pub height: usize,
    pub chunk_width: usize,
    pub chunk_height: usize,
}

/// The least multiple count of `step` that covers `n`.
pub open spec fn steps_over(n: int, step: int) -> int {
    (n + step - 1) / step
}

/// The least multiple count of `step` that covers `n`.
fn div_ceil(n: usize, step: usize) -> (count: usize)
    requires
        step > 0,
    ensures
        count == steps_over(n as int, step as int),
{
    let (q, r) = (n / step, n % step);
    proof {
        lemma_steps(n as int, step as int);
        if r > 0 {
            assert(q < n) by (nonlinear_arith)
                requires
                    step > 0,
                    0 < r < step,
                    n == step * q + r,
            ;
        }
    }
    if r > 0 {
        q + 1
    } else {
        q
    }
}

/// Rounding up is one more than rounding down, unless nothing is left over.
proof fn lemma_steps(n: int, step: int)
    requires
        n >= 0,
        step > 0,
    ensures
        steps_over(n, step) == n / step + if n % step > 0 {
            1int
        } else {
            0
        },
        n == step * (n / step) + n % step,
        0 <= n % step < step,
{
    vstd::arithmetic::div_mod::lemma_fundamental_div_mod(n, step);
    let (q, r) = (n / step, n % step);
    assert(step * q == q * step && (q + 1) * step == q * step + step) by (nonlinear_arith);
    if r > 0 {
        vstd::arithmetic::div_mod::lemma_fundamental_div_mod_converse(n + step - 1, step, q + 1, r - 1);
    } else {
        vstd::arithmetic::div_mod::lemma_fundamental_div_mod_converse(n + step - 1, step, q, step - 1);
    }
}

/// A point below `n` lies in one of the steps over `n`.
proof fn lemma_step_of(x: int, n: int, step: int)
    requires
        0 <= x < n,
        step > 0,
    ensures
        0 <= x / step < steps_over(n, step),
{
    lemma_steps(n, step);
    lemma_steps(x, step);
    assert(0 <= x / step < steps_over(n, step)) by (nonlinear_arith)
        requires
            0 <= x < n,
            step > 0,
            n == step * (n / step) + n % step,
            x == step * (x / step) + x % step,
            0 <= x % step < step,
            0 <= n % step < step,
            steps_over(n, step) == n / step + if n % step > 0 {
                1int
            } else {
                0
            },
    ;
}

impl Raster {
    /// Whether the sizes are those of a raster that can be summed: no empty
    /// chunks, 32-bit sizes, and a grid of sums that can be addressed.
    pub open spec fn wf(self) -> bool {
        &&& self.chunk_width > 0
        &&& self.chunk_height > 0
        &&& self.width <= u32::MAX
        &&& self.height <= u32::MAX
        &&& self.grid_width() * self.grid_height() <= usize::MAX
    }

    /// The columns of the grid of sums.
    pub open spec fn grid_width(self) -> int {
        steps_over(self.width as int, DOWNSAMPLE as int)
    }

    /// The rows of the grid of sums.
    pub open spec fn grid_height(self) -> int {
        steps_over(self.height as int, DOWNSAMPLE as int)
    }

    /// How many chunks stand in a row.
    pub open spec fn chunks_across(self) -> int {
        steps_over(self.width as int, self.chunk_width as int)
    }

    /// How many rows of chunks there are.
    pub open spec fn chunks_down(self) -> int {
        steps_over(self.height as int, self.chunk_height as int)
    }

    /// The columns and rows of the grid of sums.
    pub fn grid_size(&self) -> (size: (usize, usize))
        ensures
            size.0 == self.grid_width(),
            size.1 == self.grid_height(),
    {
        (div_ceil(self.width, DOWNSAMPLE), div_ceil(self.height, DOWNSAMPLE))
    }

    /// How many chunks there are, `None` if a 32-bit index does not reach
    /// them all.
    pub fn chunk_count(&self) -> (count: Option<u32>)
        requires
            self.wf(),
        ensures
            count matches Some(n) ==> n == self.chunks_across() * self.chunks_down(),
            count is None ==> self.chunks_across() * self.chunks_down() > u32::MAX,
    {
        let across: usize = div_ceil(self.width, self.chunk_width);
        let down: usize = div_ceil(self.height, self.chunk_height);
        proof {
            lemma_few(self.width as int, self.chunk_width as int);
            lemma_few(self.height as int, self.chunk_height as int);
            assert(across * down <= 0xFFFF_FFFF * 0xFFFF_FFFF) by (nonlinear_arith)
                requires
                    0 <= across <= 0xFFFF_FFFF,
                    0 <= down <= 0xFFFF_FFFF,
            ;
        }
        let count: u64 = across as u64 * down as u64;
        if count <= 0xFFFF_FFFF {
            Some(count as u32)
        } else {
            None
        }
    }

    /// The source column and row of a chunk's first cell.
    pub fn chunk_origin(&self, chunk: u32) -> (origin: (usize, usize))
        requires
            self.wf(),
            chunk < self.chunks_across() * self.chunks_down(),
        ensures
            origin.0 == (chunk as int % self.chunks_across()) * self.chunk_width,
            origin.1 == (chunk as int / self.chunks_across()) * self.chunk_height,
            origin.0 < self.width,
            origin.1 < self.height,
    {
        let across: usize = div_ceil(self.width, self.chunk_width);
        proof {
            lemma_origin(*self, chunk as int);
        }
        let (column, row) = (chunk as usize % across, chunk as usize / across);
        (column * self.chunk_width, row * self.chunk_height)
    }

    /// The place of a source cell's block in the row-major grid of sums.
    pub fn block_of(&self, x: usize, y: usize) -> (at: usize)
        requires
            self.wf(),
            x < self.width,
            y < self.height,
        ensures
            at == y as int / (DOWNSAMPLE as int) * self.grid_width() + x as int / (
            DOWNSAMPLE as int),
            at < self.grid_width() * self.grid_height(),
    {
        let across: usize = div_ceil(self.width, DOWNSAMPLE);
        proof {
            lemma_step_of(x as int, self.width as int, DOWNSAMPLE as int);
            lemma_step_of(y as int, self.height as int, DOWNSAMPLE as int);
            lemma_in_grid(
                x as int / (DOWNSAMPLE as int),
                y as int / (DOWNSAMPLE as int),
                self.grid_width(),
                self.grid_height(),
            );
        }
        y / DOWNSAMPLE * across + x / DOWNSAMPLE
    }
}

/// There are no more steps over `n` than `n`.
proof fn lemma_few(n: int, step: int)
    requires
        n >= 0,
        step > 0,
    ensures
        0 <= steps_over(n, step) <= n,
{
    lemma_steps(n, step);
    let (q, r) = (n / step, n % step);
    assert(0 <= q && q + (if r > 0 {
        1int
    } else {
        0
    }) <= n) by (nonlinear_arith)
        requires
            n >= 0,
            step > 0,
            0 <= r < step,
            n == step * q + r,
    ;
}

/// A chunk starts inside its raster.
proof fn lemma_origin(raster: Raster, chunk: int)
    requires
        raster.wf(),
        0 <= chunk < raster.chunks_across() * raster.chunks_down(),
    ensures
        raster.chunks_across() > 0,
        0 <= (chunk % raster.chunks_across()) * raster.chunk_width < raster.width,
        0 <= (chunk / raster.chunks_across()) * raster.chunk_height < raster.height,
{
    let (across, down) = (raster.chunks_across(), raster.chunks_down());
    lemma_few(raster.width as int, raster.chunk_width as int);
    lemma_few(raster.height as int, raster.chunk_height as int);
    assert(across > 0) by (nonlinear_arith)
        requires
            0 <= chunk < across * down,
            across >= 0,
            down >= 0,
    ;
    vstd::arithmetic::div_mod::lemma_fundamental_div_mod(chunk, across);
    let (row, column) = (chunk / across, chunk % across);
    assert(0 <= row < down) by (nonlinear_arith)
        requires
            0 <= chunk < across * down,
            chunk == across * row + column,
            0 <= column < across,
    ;
    lemma_step_start(column, raster.width as int, raster.chunk_width as int);
    lemma_step_start(row, raster.height as int, raster.chunk_height as int);
}

/// A step over `n` starts below `n`.
proof fn lemma_step_start(i: int, n: int, step: int)
    requires
        0 <= i < steps_over(n, step),
        n >= 0,
        step > 0,
    ensures
        0 <= i * step < n,
{
    lemma_steps(n, step);
    let (q, r) = (n / step, n % step);
    assert(0 <= i * step < n) by (nonlinear_arith)
        requires
            0 <= i < q + if r > 0 {
                1int
            } else {
                0
            },
            step > 0,
            0 <= r < step,
            n == step * q + r,
    ;
}

/// A sidecar starts with `uTZd`; its dimensions, edges and steps follow with
/// the least significant byte first, and from byte 44 on the cells, each read
/// from four bytes. Anything of another length is refused.
pub proof fn lemma_sidecar_lies_as_declared(b: Seq<u8>)
    ensures
        b.len() < 4 ==> sidecar_read(b) == Err::<GridView, SidecarError>(SidecarError::Truncated),
        b.len() >= 4 && !(b[0] == 0x75 && b[1] == 0x54 && b[2] == 0x5A && b[3] == 0x64)
            ==> sidecar_read(b) == Err::<GridView, SidecarError>(SidecarError::BadMagic),
        b.len() >= 4 && b[0] == 0x75 && b[1] == 0x54 && b[2] == 0x5A && b[3] == 0x64 && b.len()
            < 44 ==> sidecar_read(b) == Err::<GridView, SidecarError>(SidecarError::Truncated),
        sidecar_read(b) matches Ok(g) ==> {
            &&& g.width == b[4] + 256 * (b[5] + 256 * (b[6] + 256 * b[7]))
            &&& g.height == b[8] + 256 * (b[9] + 256 * (b[10] + 256 * b[11]))
            &&& b.len() == 44 + 4 * (g.width * g.height)
            &&& g.lon0 == eight_bytes(b, 12)
            &&& g.lat0 == eight_bytes(b, 20)
            &&& g.dlon == eight_bytes(b, 28)
            &&& g.dlat == eight_bytes(b, 36)
            &&& g.cells.len() == g.width * g.height
            &&& forall|i: int|
                0 <= i < g.cells.len() ==> #[trigger] g.cells[i] == b[44 + 4 * i] + 256 * (b[45 + 4
                    * i] + 256 * (b[46 + 4 * i] + 256 * b[47 + 4 * i]))
        },
        b.len() >= 44 && b[0] == 0x75 && b[1] == 0x54 && b[2] == 0x5A && b[3] == 0x64 ==> (
        sidecar_read(b) is Ok <==> b.len() == 44 + 4 * ((b[4] + 256 * (b[5] + 256 * (b[6] + 256
            * b[7]))) * (b[8] + 256 * (b[9] + 256 * (b[10] + 256 * b[11]))))),
{
    if b.len() >= 4 {
        let head = b.take(4);
        assert(head[0] == b[0] && head[1] == b[1] && head[2] == b[2] && head[3] == b[3]);
        assert(SIDECAR_MAGIC@[0] == 0x75 && SIDECAR_MAGIC@[1] == 0x54 && SIDECAR_MAGIC@[2] == 0x5A
            && SIDECAR_MAGIC@[3] == 0x64);
        if b[0] == 0x75 && b[1] == 0x54 && b[2] == 0x5A && b[3] == 0x64 {
            assert(head =~= SIDECAR_MAGIC@);
        }
        let (w, h) = (u32_at(b, 4), u32_at(b, 8));
        assert(w * h >= 0) by (nonlinear_arith)
            requires
                w >= 0,
                h >= 0,
        ;
    }
}

/// Eight bytes as a number, the least significant first.
pub open spec fn eight_bytes(b: Seq<u8>, i: int) -> int {
    b[i] + 256 * (b[i + 1] + 256 * (b[i + 2] + 256 * (b[i + 3] + 256 * (b[i + 4] + 256 * (b[i + 5]
        + 256 * (b[i + 6] + 256 * b[i + 7]))))))
}

/// Every sample of a grid is found at its column and row, on a grid round the
/// globe at that column any number of turns away too; nothing lies outside the
/// rows, nor outside the columns of a grid that does not wrap.
pub proof fn lemma_samples_stand_at_their_cells(g: DensityGrid, x: int, y: int, turns: int)
    requires
        g@.wf(),
        g.width > 0,
    ensures
        0 <= x < g.width && 0 <= y < g.height ==> {
            &&& 0 <= y * g.width + x < g.cells@.len()
            &&& g.sample_at(x, y, false) == g.cells@[y * g.width + x]
            &&& g.sample_at(x + turns * g.width, y, true) == g.cells@[y * g.width + x]
        },
        !(0 <= y < g.height) ==> g.sample_at(x, y, false) == 0 && g.sample_at(x, y, true) == 0,
        !(0 <= x < g.width) ==> g.sample_at(x, y, false) == 0,
{
    if 0 <= x < g.width && 0 <= y < g.height {
        lemma_in_grid(x, y, g.width as int, g.height as int);
        vstd::arithmetic::div_mod::lemma_fundamental_div_mod_converse(
            x + turns * g.width,
            g.width as int,
            turns,
            x,
        );
    }
}

/// A grid of sums has just enough columns and rows of eight source cells, and
/// there are just enough chunks, to cover the raster.
pub proof fn lemma_raster_is_just_covered(raster: Raster)
    requires
        raster.chunk_width > 0,
        raster.chunk_height > 0,
    ensures
        8 * raster.grid_width() - 8 < raster.width <= 8 * raster.grid_width(),
        8 * raster.grid_height() - 8 < raster.height <= 8 * raster.grid_height(),
        raster.chunk_width * raster.chunks_across() - raster.chunk_width < raster.width
            <= raster.chunk_width * raster.chunks_across(),
        raster.chunk_height * raster.chunks_down() - raster.chunk_height < raster.height
            <= raster.chunk_height * raster.chunks_down(),
{
    lemma_just_covers(raster.width as int, 8);
    lemma_just_covers(raster.height as int, 8);
    lemma_just_covers(raster.width as int, raster.chunk_width as int);
    lemma_just_covers(raster.height as int, raster.chunk_height as int);
}

/// The steps over `n` cover it, and one fewer would not.
proof fn lemma_just_covers(n: int, step: int)
    requires
        n >= 0,
        step > 0,
    ensures
        step * steps_over(n, step) - step < n <= step * steps_over(n, step),
{
    lemma_steps(n, step);
    let (q, r) = (n / step, n % step);
    assert(step * (q + 1) == step * q + step) by (nonlinear_arith);
}

/// Every source cell lies in exactly one chunk.
pub proof fn lemma_chunks_tile(raster: Raster, x: int, y: int) -> (chunk: int)
    requires
        raster.wf(),
        0 <= x < raster.width,
        0 <= y < raster.height,
    ensures
        in_chunk(raster, chunk, x, y),
        forall|other: int| #[trigger] in_chunk(raster, other, x, y) ==> other == chunk,
{
    let (across, down) = (raster.chunks_across(), raster.chunks_down());
    let (w, h) = (raster.chunk_width as int, raster.chunk_height as int);
    lemma_step_of(x, raster.width as int, w);
    lemma_step_of(y, raster.height as int, h);
    lemma_steps(x, w);
    lemma_steps(y, h);
    let (column, row) = (x / w, y / h);
    let chunk = row * across + column;
    vstd::arithmetic::div_mod::lemma_fundamental_div_mod_converse(chunk, across, row, column);
    lemma_in_grid(column, row, across, down);
    assert(column * w == w * column && row * h == h * row) by (nonlinear_arith);
    assert forall|other: int| #[trigger] in_chunk(raster, other, x, y) implies other == chunk by {
        let (c, r) = (other % across, other / across);
        vstd::arithmetic::div_mod::lemma_fundamental_div_mod(other, across);
        vstd::arithmetic::div_mod::lemma_fundamental_div_mod_converse(x, w, c, x - c * w);
        vstd::arithmetic::div_mod::lemma_fundamental_div_mod_converse(y, h, r, y - r * h);
        assert(across * r == r * across) by (nonlinear_arith);
    }
    chunk
}

/// Whether a source cell lies in the chunk of a number, counted row by row.
pub open spec fn in_chunk(raster: Raster, chunk: int, x: int, y: int) -> bool {
    let across = raster.chunks_across();
    &&& 0 <= chunk < across * raster.chunks_down()
    &&& (chunk % across) * raster.chunk_width <= x < (chunk % across) * raster.chunk_width
        + raster.chunk_width
    &&& (chunk / across) * raster.chunk_height <= y < (chunk / across) * raster.chunk_height
        + raster.chunk_height
}

/// A file's path is the directory, then the name, with a slash between them
/// unless the directory is empty or ends in one.
pub proof fn lemma_path_ends_in_the_name(dir: Seq<char>, name: Seq<char>)
    ensures
        path_in(dir, name).take(dir.len() as int) == dir,
        path_in(dir, name).skip(path_in(dir, name).len() - name.len()) == name,
        dir.len() == 0 || dir[dir.len() - 1] == '/' ==> path_in(dir, name).len() == dir.len()
            + name.len(),
        dir.len() > 0 && dir[dir.len() - 1] != '/' ==> path_in(dir, name).len() == dir.len() + 1
            + name.len() && path_in(dir, name)[dir.len() as int] == '/',
{
    reveal_strlit("/");
    let p = path_in(dir, name);
    assert(p.take(dir.len() as int) =~= dir);
    assert(p.skip(p.len() - name.len()) =~= name);
}

} // verus!
