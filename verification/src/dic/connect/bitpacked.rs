//! The block-compressed connection matrix.
//!
//! In a grammar the matrix stands behind a mark. It is stored as blocks of 256 by 256 cells. Each
//! block has a minimum and a bit width, and then the difference of every cell to the minimum in
//! exactly that many bits, so that any cost can be read on its own.
//!
//! ```text
//! [num_left: u16][num_right: u16]
//! [num_blocks: u32]
//! [block_offsets: u32 per block]     byte offset from the first block
//! [blocks]
//! ```
//!
//! Each block is `[min_val: i16][bit_width: u8][packed cells]`.

use vstd::prelude::*;
use vstd::slice::slice_subrange;

use crate::bytes;
use crate::dic::compact;
use crate::error;
use crate::error::{SudachiError, SudachiResult};
use crate::util::cow_array::CowBytes;

verus! {

/// A connection matrix that is read out of its packed form, cost by cost.
pub struct ConnectionMatrix<'a> {
    buf: CowBytes<'a>,
    num_left: usize,
    num_right: usize,
    num_col_blocks: usize,
    block_offsets_start: usize,
    data_start: usize,
}

/// Number of rows and of columns of a block.
pub const BLOCK_SIZE: usize = 256;

/// Marks a packed connection matrix: "MCBP".
pub const BITPACKED_MAGIC: u32 = 0x4D43_4250;

/// What a [`ConnectionMatrix`] is made of.
pub struct MatrixModel {
    pub buf: Seq<u8>,
    pub num_left: nat,
    pub num_right: nat,
    /// Number of blocks side by side; 0 where the matrix is not packed.
    pub num_col_blocks: nat,
    pub block_offsets_start: nat,
    pub data_start: nat,
}

/// How many of `total` rows or columns lie in block `block`.
pub open spec fn block_extent(total: int, block: int) -> int {
    if total < block * BLOCK_SIZE {
        0
    } else if total - block * BLOCK_SIZE < BLOCK_SIZE {
        total - block * BLOCK_SIZE
    } else {
        BLOCK_SIZE as int
    }
}

/// The 16-bit integer that `v` wraps around to.
pub open spec fn wrapped_i16(v: int) -> i16 {
    bytes::to_i16(v % 0x1_0000)
}

impl MatrixModel {
    /// Number of blocks one below the other.
    pub open spec fn num_row_blocks(self) -> nat {
        ((self.num_right + BLOCK_SIZE - 1) / (BLOCK_SIZE as int)) as nat
    }

    /// Where block `bi` begins.
    pub open spec fn block_start(self, bi: int) -> int {
        self.data_start + bytes::u32_at(self.buf, self.block_offsets_start + 4 * bi)
    }

    /// Number of cells of block `bi`.
    pub open spec fn block_cells(self, bi: int) -> int {
        block_extent(self.num_right as int, bi / self.num_col_blocks as int) * block_extent(
            self.num_left as int,
            bi % self.num_col_blocks as int,
        )
    }

    /// Where block `bi` ends.
    pub open spec fn block_end(self, bi: int) -> int {
        self.block_start(bi) + 3 + (self.block_cells(bi) * self.buf[self.block_start(bi) + 2] + 7)
            / 8
    }

    /// The bits of a packed cell begin here, counted from the packed cells of its block.
    pub open spec fn cell_bit(self, left: int, right: int, width: int) -> int {
        ((right % (BLOCK_SIZE as int)) * block_extent(
            self.num_left as int,
            left / (BLOCK_SIZE as int),
        ) + left % (BLOCK_SIZE as int)) * width
    }

    /// The number of the block that a cell lies in.
    pub open spec fn block_of(self, left: int, right: int) -> int {
        right / (BLOCK_SIZE as int) * self.num_col_blocks + left / (BLOCK_SIZE as int)
    }

    /// The cost in a column and a row, where the bytes of the matrix hold it.
    pub open spec fn cell(self, left: int, right: int) -> Option<i16> {
        if self.num_col_blocks == 0 {
            let pos = self.data_start + 2 * (right * self.num_left + left);
            if pos + 2 <= self.buf.len() {
                Some(bytes::i16_at(self.buf, pos))
            } else {
                None
            }
        } else {
            let bi = self.block_of(left, right);
            let start = self.block_start(bi);
            if self.block_offsets_start + 4 * bi + 4 > self.buf.len() || start + 3
                > self.buf.len() {
                None
            } else {
                let min_val = bytes::i16_at(self.buf, start);
                let width = self.buf[start + 2] as int;
                let bit = self.cell_bit(left, right, width);
                if width == 0 {
                    Some(min_val)
                } else if width > 32 || bit + width > 8 * (self.buf.len() - start - 3) {
                    None
                } else {
                    Some(
                        wrapped_i16(
                            min_val + compact::bit_field(
                                self.buf.skip(start + 3),
                                bit,
                                width as nat,
                            ),
                        ),
                    )
                }
            }
        }
    }

    /// The costs of the matrix are those that `costs` gives for a column and a row.
    pub open spec fn holds(self, costs: spec_fn(int, int) -> i16) -> bool {
        forall|left: int, right: int|
            0 <= left < self.num_left && 0 <= right < self.num_right ==> #[trigger] self.cell(
                left,
                right,
            ) == Some(costs(left, right))
    }

    /// Every cell is stored as the format says: the difference to the minimum of its block in
    /// as many bits as the block has for a cell.
    pub open spec fn packs(self, costs: spec_fn(int, int) -> i16) -> bool {
        forall|left: int, right: int|
            0 <= left < self.num_left && 0 <= right < self.num_right
                ==> #[trigger] self.packs_cell(left, right, costs(left, right))
    }

    /// A cell is stored as the difference to the minimum of its block.
    pub open spec fn packs_cell(self, left: int, right: int, cost: i16) -> bool {
        let bi = self.block_of(left, right);
        let start = self.block_start(bi);
        let width = self.buf[start + 2] as int;
        let bit = self.cell_bit(left, right, width);
        &&& self.block_offsets_start + 4 * bi + 4 <= self.buf.len()
        &&& start + 3 <= self.buf.len()
        &&& width <= 32
        &&& bit + width <= 8 * (self.buf.len() - start - 3)
        &&& cost - bytes::i16_at(self.buf, start) == compact::bit_field(
            self.buf.skip(start + 3),
            bit,
            width as nat,
        )
    }
}

/// The header at `offset` of a packed matrix, as a matrix.
pub open spec fn bitpacked_model(buf: Seq<u8>, offset: int) -> MatrixModel {
    let num_left = bytes::u16_at(buf, offset) as nat;
    MatrixModel {
        buf,
        num_left,
        num_right: bytes::u16_at(buf, offset + 2) as nat,
        num_col_blocks: ((num_left + BLOCK_SIZE - 1) / (BLOCK_SIZE as int)) as nat,
        block_offsets_start: (offset + 8) as nat,
        data_start: (offset + 8 + 4 * bytes::u32_at(buf, offset + 4)) as nat,
    }
}

/// The header at `offset` of a packed matrix is whole, and so are the headers of its blocks.
pub open spec fn bitpacked_headers(buf: Seq<u8>, offset: int) -> bool {
    let model = bitpacked_model(buf, offset);
    let num_blocks = bytes::u32_at(buf, offset + 4);
    &&& offset + 8 + 4 * num_blocks <= buf.len()
    &&& num_blocks > 0 ==> model.num_left > 0
    &&& forall|bi: int|
        0 <= bi < num_blocks ==> (#[trigger] model.block_start(bi)) + 3 <= buf.len()
            && model.block_end(bi) <= usize::MAX
}

/// Where the last one of the first `n` blocks ends, or where the blocks begin.
pub open spec fn data_end(model: MatrixModel, n: nat) -> int
    decreases n,
{
    if n == 0 {
        model.data_start as int
    } else {
        let before = data_end(model, (n - 1) as nat);
        if model.block_end(n - 1) > before {
            model.block_end(n - 1)
        } else {
            before
        }
    }
}

/// The first blocks end where they end together at the latest.
proof fn lemma_data_end(model: MatrixModel, n: nat, bi: int)
    ensures
        model.data_start <= data_end(model, n),
        0 <= bi < n ==> model.block_end(bi) <= data_end(model, n),
        data_end(model, n) == model.data_start || exists|k: int|
            0 <= k < n && #[trigger] model.block_end(k) == data_end(model, n),
    decreases n,
{
    if n > 0 {
        lemma_data_end(model, (n - 1) as nat, bi);
        let before = data_end(model, (n - 1) as nat);
        if before >= model.block_end(n - 1) && before != model.data_start {
            let k = choose|k: int| 0 <= k < n - 1 && #[trigger] model.block_end(k) == before;
            assert(model.block_end(k) == data_end(model, n));
        } else {
            assert(model.block_end(n - 1) == model.block_end(n - 1));
        }
    }
}

/// Block `bi` lies within the bytes, and its cells can be read.
pub open spec fn block_is_whole(model: MatrixModel, bi: int) -> bool {
    &&& model.block_start(bi) + 3 <= model.buf.len()
    &&& model.buf[model.block_start(bi) + 2] <= 32
    &&& model.block_end(bi) <= model.buf.len()
}

/// The packed matrix at `offset` lies within the bytes, and has a block for each of its cells.
pub open spec fn is_whole(buf: Seq<u8>, offset: int) -> bool {
    let model = bitpacked_model(buf, offset);
    let n = bytes::u32_at(buf, offset + 4);
    &&& offset + 8 + 4 * n <= buf.len()
    &&& n > 0 ==> model.num_left > 0
    &&& model.num_row_blocks() * model.num_col_blocks <= n
    &&& forall|bi: int| 0 <= bi < n ==> #[trigger] block_is_whole(model, bi)
}

/// The packed matrix at `offset` and the number of its bytes. There is no answer where it is cut
/// off behind its numbers of columns and rows.
pub open spec fn bitpacked_section(buf: Seq<u8>, offset: int) -> Option<
    Result<(MatrixModel, int), error::ErrorModel>,
> {
    let model = bitpacked_model(buf, offset);
    if offset + 4 > buf.len() {
        Some(
            Err(
                error::with_context(
                    error::ErrorModel::InvalidDictionaryGrammar,
                    "bitpacked conn header"@,
                ),
            ),
        )
    } else if offset + 8 > buf.len() || !is_whole(buf, offset) {
        None
    } else {
        Some(Ok((model, data_end(model, bytes::u32_at(buf, offset + 4) as nat) - offset)))
    }
}

/// The costs of a matrix, row after row.
pub open spec fn costs_of(model: MatrixModel) -> Seq<i16> {
    Seq::new(
        model.num_left * model.num_right,
        |i: int| model.cell(i % model.num_left as int, i / model.num_left as int).unwrap(),
    )
}

/// Every cost of a matrix can be read.
pub open spec fn is_readable(model: MatrixModel) -> bool {
    forall|left: int, right: int|
        0 <= left < model.num_left && 0 <= right < model.num_right ==> #[trigger] model.cell(
            left,
            right,
        ) is Some
}

/// A cost stands in its place in the rows.
pub proof fn lemma_cost_place(model: MatrixModel, left: int, right: int)
    requires
        0 <= left < model.num_left,
        0 <= right < model.num_right,
    ensures
        0 <= right * model.num_left + left < costs_of(model).len(),
        costs_of(model)[right * model.num_left + left] == model.cell(left, right).unwrap(),
{
    let c = model.num_left as int;
    let r = model.num_right as int;
    let i = right * c + left;
    assert(0 <= i < c * r) by (nonlinear_arith)
        requires
            0 <= left < c,
            0 <= right < r,
            i == right * c + left,
    ;
    vstd::arithmetic::div_mod::lemma_fundamental_div_mod_converse(i, c, right, left);
}

/// The block that a cell lies in is there, and its cells reach to the cell at least.
proof fn lemma_cell_in_block(model: MatrixModel, left: int, right: int, width: int)
    requires
        model.num_col_blocks == (model.num_left + BLOCK_SIZE - 1) / (BLOCK_SIZE as int),
        0 <= left < model.num_left,
        0 <= right < model.num_right,
        0 <= width,
    ensures
        0 <= model.block_of(left, right) < model.num_row_blocks() * model.num_col_blocks,
        0 <= model.cell_bit(left, right, width),
        model.cell_bit(left, right, width) + width <= model.block_cells(
            model.block_of(left, right),
        ) * width,
{
    let (row, col) = (right / (BLOCK_SIZE as int), left / (BLOCK_SIZE as int));
    let (r, l) = (right % (BLOCK_SIZE as int), left % (BLOCK_SIZE as int));
    let n = model.num_col_blocks as int;
    let bi = row * n + col;
    let rows = model.num_row_blocks() as int;
    assert(0 <= col < n && 0 <= row < rows);
    assert(0 <= bi < rows * n) by (nonlinear_arith)
        requires
            0 <= col < n,
            0 <= row < rows,
            bi == row * n + col,
    ;
    vstd::arithmetic::div_mod::lemma_fundamental_div_mod_converse(bi, n, row, col);
    let er = block_extent(model.num_right as int, row);
    let ec = block_extent(model.num_left as int, col);
    assert(r < er && l < ec);
    let index = r * ec + l;
    assert(0 <= index < er * ec) by (nonlinear_arith)
        requires
            0 <= r < er,
            0 <= l < ec,
            index == r * ec + l,
    ;
    assert(0 <= index * width && index * width + width <= er * ec * width) by (nonlinear_arith)
        requires
            0 <= index < er * ec,
            0 <= width,
    ;
    assert(model.block_cells(bi) == er * ec);
}

/// The costs of a whole matrix can be read.
pub proof fn lemma_whole_is_readable(buf: Seq<u8>, offset: int)
    requires
        0 <= offset,
        is_whole(buf, offset),
    ensures
        is_readable(bitpacked_model(buf, offset)),
{
    let model = bitpacked_model(buf, offset);
    assert forall|left: int, right: int|
        0 <= left < model.num_left && 0 <= right < model.num_right implies #[trigger] model.cell(
        left,
        right,
    ) is Some by {
        let bi = model.block_of(left, right);
        let width = model.buf[model.block_start(bi) + 2] as int;
        lemma_cell_in_block(model, left, right, width);
        assert(block_is_whole(model, bi));
        lemma_cell_in_bytes(model, left, right);
        assert(model.block_offsets_start + 4 * bi + 4 <= buf.len());
    }
}

/// The bits of a cell lie within its block.
proof fn lemma_cell_in_bytes(model: MatrixModel, left: int, right: int)
    requires
        model.num_col_blocks == (model.num_left + BLOCK_SIZE - 1) / (BLOCK_SIZE as int),
        0 <= left < model.num_left,
        0 <= right < model.num_right,
    ensures
        ({
            let bi = model.block_of(left, right);
            let start = model.block_start(bi);
            let width = model.buf[start + 2] as int;
            let bit = model.cell_bit(left, right, width);
            0 <= bit && bit + width <= 8 * (model.block_end(bi) - start - 3)
        }),
{
    let bi = model.block_of(left, right);
    let width = model.buf[model.block_start(bi) + 2] as int;
    lemma_cell_in_block(model, left, right, width);
}

/// A whole packed matrix ends within the bytes, behind its header.
pub proof fn lemma_section_within(buf: Seq<u8>, offset: int)
    requires
        0 <= offset,
    ensures
        bitpacked_section(buf, offset) matches Some(Ok((m, used))) ==> 8 <= used && offset + used
            <= buf.len(),
{
    if let Some(Ok((m, used))) = bitpacked_section(buf, offset) {
        let n = bytes::u32_at(buf, offset + 4) as nat;
        lemma_data_end(m, n, 0);
        assert forall|bi: int| 0 <= bi < n implies #[trigger] m.block_end(bi) <= buf.len() by {
            assert(block_is_whole(m, bi));
        }
    }
}

/// A block ends behind its header.
proof fn lemma_block_len(model: MatrixModel, bi: int)
    requires
        0 <= bi,
        model.num_col_blocks > 0,
    ensures
        model.block_start(bi) + 3 <= model.block_end(bi),
{
    let r = block_extent(model.num_right as int, bi / model.num_col_blocks as int);
    let c = block_extent(model.num_left as int, bi % model.num_col_blocks as int);
    let width = model.buf[model.block_start(bi) + 2] as int;
    assert(0 <= r * c * width) by (nonlinear_arith)
        requires
            0 <= r,
            0 <= c,
            0 <= width,
    ;
}

/// Blocks that stand `d` bytes earlier end that many bytes earlier.
proof fn lemma_data_end_moves(m: MatrixModel, w: MatrixModel, n: nat, d: int)
    requires
        w.data_start == m.data_start - d,
        forall|bi: int| 0 <= bi < n ==> #[trigger] w.block_end(bi) == m.block_end(bi) - d,
    ensures
        data_end(w, n) == data_end(m, n) - d,
    decreases n,
{
    if n > 0 {
        lemma_data_end_moves(m, w, (n - 1) as nat, d);
        assert(w.block_end(n - 1) == m.block_end(n - 1) - d);
    }
}

/// Block `bi` of the matrix `w` is block `bi` of the matrix `m`, `d` bytes earlier.
spec fn same_block(m: MatrixModel, w: MatrixModel, bi: int, d: int) -> bool {
    &&& w.block_start(bi) == m.block_start(bi) - d
    &&& w.block_end(bi) == m.block_end(bi) - d
    &&& w.buf[w.block_start(bi) + 2] == m.buf[m.block_start(bi) + 2]
    &&& block_is_whole(w, bi)
}

/// The bytes of the packed matrix at `p` stand in `own`, `d` bytes earlier.
pub open spec fn stands_in(a: Seq<u8>, p: int, own: Seq<u8>, d: int) -> bool {
    &&& 0 <= d <= p
    &&& bitpacked_section(a, p) matches Some(Ok((m, used))) && p + used - d <= own.len()
    &&& forall|i: int| 0 <= i < own.len() ==> #[trigger] own[i] == a[i + d]
}

/// The header of a packed matrix is the same elsewhere.
proof fn lemma_same_header(a: Seq<u8>, p: int, own: Seq<u8>, d: int)
    requires
        stands_in(a, p, own, d),
    ensures
        ({
            let m = bitpacked_model(a, p);
            let w = bitpacked_model(own, p - d);
            let n = bytes::u32_at(a, p + 4);
            &&& p + 8 + 4 * n <= data_end(m, n as nat)
            &&& data_end(m, n as nat) - d <= own.len()
            &&& bytes::u32_at(own, p - d + 4) == n
            &&& w.num_left == m.num_left
            &&& w.num_right == m.num_right
            &&& w.num_col_blocks == m.num_col_blocks
            &&& w.block_offsets_start == m.block_offsets_start - d
            &&& w.data_start == m.data_start - d
        }),
{
    let q = p - d;
    lemma_data_end(bitpacked_model(a, p), bytes::u32_at(a, p + 4) as nat, 0);
    assert(own[q] == a[q + d]);
    assert(own[q + 1] == a[q + 1 + d]);
    assert(own[q + 2] == a[q + 2 + d]);
    assert(own[q + 3] == a[q + 3 + d]);
    assert(own[q + 4] == a[q + 4 + d]);
    assert(own[q + 5] == a[q + 5 + d]);
    assert(own[q + 6] == a[q + 6 + d]);
    assert(own[q + 7] == a[q + 7 + d]);
}

/// A block of a packed matrix is the same elsewhere.
#[verifier::rlimit(30)]
proof fn lemma_same_block(a: Seq<u8>, p: int, own: Seq<u8>, d: int, bi: int)
    requires
        stands_in(a, p, own, d),
        0 <= bi < bytes::u32_at(a, p + 4),
    ensures
        same_block(bitpacked_model(a, p), bitpacked_model(own, p - d), bi, d),
        bitpacked_model(a, p).block_end(bi) - d <= own.len(),
{
    let m = bitpacked_model(a, p);
    let w = bitpacked_model(own, p - d);
    lemma_same_header(a, p, own, d);
    assert(block_is_whole(m, bi));
    lemma_data_end(m, bytes::u32_at(a, p + 4) as nat, bi);
    lemma_block_len(m, bi);
    let at = p - d + 8 + 4 * bi;
    assert(own[at] == a[at + d]);
    assert(own[at + 1] == a[at + 1 + d]);
    assert(own[at + 2] == a[at + 2 + d]);
    assert(own[at + 3] == a[at + 3 + d]);
    let start = w.block_start(bi);
    assert(start == m.block_start(bi) - d);
    assert(own[start + 2] == a[start + 2 + d]);
    assert(w.block_cells(bi) == m.block_cells(bi));
}

/// A cost of a packed matrix is the same elsewhere.
proof fn lemma_same_cell(a: Seq<u8>, p: int, own: Seq<u8>, d: int, left: int, right: int)
    requires
        stands_in(a, p, own, d),
        0 <= left < bitpacked_model(a, p).num_left,
        0 <= right < bitpacked_model(a, p).num_right,
    ensures
        bitpacked_model(own, p - d).cell(left, right) == bitpacked_model(a, p).cell(left, right),
{
    let m = bitpacked_model(a, p);
    let w = bitpacked_model(own, p - d);
    let bi = m.block_of(left, right);
    lemma_same_header(a, p, own, d);
    lemma_cell_in_block(m, left, right, 0);
    lemma_cell_in_bytes(m, left, right);
    lemma_same_block(a, p, own, d, bi);
    assert(block_is_whole(m, bi));
    lemma_block_len(m, bi);
    let start = w.block_start(bi);
    assert(own[start] == a[start + d]);
    assert(own[start + 1] == a[start + 1 + d]);
    let s = own.skip(start + 3);
    let t = a.skip(start + d + 3);
    let width = own[start + 2] as int;
    let bit = m.cell_bit(left, right, width);
    let k = w.block_end(bi) - start - 3;
    assert forall|i: int| 0 <= i < k implies #[trigger] s[i] == t[i] by {
        assert(own[start + 3 + i] == a[start + 3 + i + d]);
    }
    compact::lemma_bit_field_local(s, t, bit, width as nat, k);
    assert(w.cell_bit(left, right, width) == bit);
    assert(w.block_of(left, right) == bi);
}

/// Matrices with the same cells have the same costs.
proof fn lemma_same_costs(m: MatrixModel, w: MatrixModel)
    requires
        w.num_left == m.num_left,
        w.num_right == m.num_right,
        forall|left: int, right: int|
            0 <= left < m.num_left && 0 <= right < m.num_right ==> #[trigger] w.cell(left, right)
                == m.cell(left, right),
    ensures
        costs_of(w) == costs_of(m),
{
    let x = costs_of(w);
    let y = costs_of(m);
    let c = m.num_left as int;
    let r = m.num_right as int;
    assert forall|i: int| 0 <= i < x.len() implies #[trigger] x[i] == y[i] by {
        assert(0 <= i % c < c && 0 <= i / c < r) by (nonlinear_arith)
            requires
                0 <= i < c * r,
                0 <= c,
        ;
        assert(w.cell(i % c, i / c) == m.cell(i % c, i / c));
    }
    assert(x =~= y);
}

/// A packed matrix is determined by its own bytes: it has the same costs where these stand
/// elsewhere.
pub proof fn lemma_bitpacked_local(a: Seq<u8>, p: int, own: Seq<u8>, d: int)
    requires
        stands_in(a, p, own, d),
    ensures
        ({
            let m = bitpacked_model(a, p);
            let w = bitpacked_model(own, p - d);
            &&& bitpacked_section(own, p - d) matches Some(Ok((got, used))) && got == w
                && bitpacked_section(a, p)->0->Ok_0.1 == used
            &&& w.num_left == m.num_left
            &&& w.num_right == m.num_right
            &&& costs_of(w) == costs_of(m)
        }),
{
    let m = bitpacked_model(a, p);
    let w = bitpacked_model(own, p - d);
    let n = bytes::u32_at(a, p + 4) as nat;
    lemma_same_header(a, p, own, d);
    assert forall|bi: int| 0 <= bi < n implies #[trigger] w.block_end(bi) == m.block_end(bi)
        - d by {
        lemma_same_block(a, p, own, d, bi);
    }
    lemma_data_end_moves(m, w, n, d);
    assert forall|bi: int| 0 <= bi < n implies #[trigger] block_is_whole(w, bi) by {
        lemma_same_block(a, p, own, d, bi);
    }
    assert forall|left: int, right: int|
        0 <= left < m.num_left && 0 <= right < m.num_right implies #[trigger] w.cell(left, right)
        == m.cell(left, right) by {
        lemma_same_cell(a, p, own, d, left, right);
    }
    lemma_same_costs(m, w);
}

/// `end` is where the last one of the first `n` blocks ends, or where the blocks begin.
pub open spec fn is_data_end(model: MatrixModel, n: int, end: int) -> bool {
    &&& model.data_start <= end
    &&& forall|bi: int| 0 <= bi < n ==> #[trigger] model.block_end(bi) <= end
    &&& end == model.data_start || exists|bi: int|
        0 <= bi < n && #[trigger] model.block_end(bi) == end
}

impl<'a> ConnectionMatrix<'a> {
    /// What the matrix is made of.
    pub closed spec fn model(self) -> MatrixModel {
        MatrixModel {
            buf: self.buf@,
            num_left: self.num_left as nat,
            num_right: self.num_right as nat,
            num_col_blocks: self.num_col_blocks as nat,
            block_offsets_start: self.block_offsets_start as nat,
            data_start: self.data_start as nat,
        }
    }

    /// The matrix with `num_left` columns and `num_right` rows that `buf` holds in uncompressed
    /// form from byte `offset` on.
    pub fn from_offset_size(
        buf: &'a [u8],
        offset: usize,
        num_left: usize,
        num_right: usize,
    ) -> (res: SudachiResult<ConnectionMatrix<'a>>)
        requires
            offset + 2 * (num_left * num_right) <= usize::MAX,
        ensures
            if offset + 2 * (num_left * num_right) > buf.len() {
                res matches Err(e) && e.model() == error::with_context(
                    error::ErrorModel::InvalidDictionaryGrammar,
                    "connection matrix"@,
                )
            } else {
                res matches Ok(m) && m.model() == (MatrixModel {
                    buf: buf@,
                    num_left: num_left as nat,
                    num_right: num_right as nat,
                    num_col_blocks: 0,
                    block_offsets_start: offset as nat,
                    data_start: offset as nat,
                })
            },
    {
        proof {
            assert(0 <= num_left * num_right) by (nonlinear_arith)
                requires
                    0 <= num_left,
                    0 <= num_right,
            ;
        }
        let size: usize = num_left * num_right;
        let byte_size: usize = size * 2;
        if offset + byte_size > buf.len() {
            return Err(SudachiError::InvalidDictionaryGrammar.with_context("connection matrix"));
        }
        Ok(
            ConnectionMatrix {
                buf: CowBytes::borrowed(buf),
                num_left,
                num_right,
                num_col_blocks: 0,
                block_offsets_start: offset,
                data_start: offset,
            },
        )
    }

    /// The packed matrix at byte `offset`, and the number of bytes that it takes up. No cost is
    /// read here.
    pub fn from_bitpacked(buf: &'a [u8], offset: usize) -> (res: SudachiResult<
        (ConnectionMatrix<'a>, usize),
    >)
        requires
            offset + 4 <= usize::MAX,
            offset + 4 <= buf.len() ==> offset + 8 <= buf.len() && bitpacked_headers(
                buf@,
                offset as int,
            ),
        ensures
            if offset + 4 > buf.len() {
                res matches Err(e) && e.model() == error::with_context(
                    error::ErrorModel::InvalidDictionaryGrammar,
                    "bitpacked conn header"@,
                )
            } else {
                res matches Ok((m, consumed)) && {
                    &&& m.model() == bitpacked_model(buf@, offset as int)
                    &&& is_data_end(
                        m.model(),
                        bytes::u32_at(buf@, offset + 4) as int,
                        offset + consumed,
                    )
                }
            },
    {
        if offset + 4 > buf.len() {
            return Err(
                SudachiError::InvalidDictionaryGrammar.with_context("bitpacked conn header"),
            );
        }
        let num_left: usize = bytes::read_u16(buf, offset) as usize;
        let num_right: usize = bytes::read_u16(buf, offset + 2) as usize;
        let num_blocks: usize = bytes::read_u32(buf, offset + 4) as usize;
        let block_offsets_start: usize = offset + 8;
        let data_start: usize = block_offsets_start + num_blocks * 4;
        let num_col_blocks: usize = (num_left + BLOCK_SIZE - 1) / BLOCK_SIZE;

        let ghost model = bitpacked_model(buf@, offset as int);
        let mut max_data_end: usize = data_start;
        let mut bi: usize = 0;
        while bi < num_blocks
            invariant
                bi <= num_blocks,
                num_blocks == bytes::u32_at(buf@, offset + 4),
                bitpacked_headers(buf@, offset as int),
                model == bitpacked_model(buf@, offset as int),
                num_left == model.num_left,
                num_right == model.num_right,
                num_left <= 0xffff,
                num_right <= 0xffff,
                num_col_blocks == model.num_col_blocks,
                num_col_blocks <= 256,
                num_left > 0 ==> num_col_blocks > 0,
                block_offsets_start == model.block_offsets_start,
                data_start == model.data_start,
                block_offsets_start + 4 * num_blocks <= buf.len(),
                is_data_end(model, bi as int, max_data_end as int),
            decreases num_blocks - bi,
        {
            let bo_off: usize = block_offsets_start + bi * 4;
            let block_offset: usize = bytes::read_u32(buf, bo_off) as usize;
            assert(model.block_start(bi as int) + 3 <= buf.len());
            let abs_start: usize = data_start + block_offset;
            let bit_width: u8 = buf[abs_start + 2];
            let rb: usize = bi / num_col_blocks;
            let cb: usize = bi % num_col_blocks;
            let actual_rows: usize = extent_in_block(num_right, rb);
            let actual_cols: usize = extent_in_block(num_left, cb);
            proof {
                assert(0 <= actual_rows * actual_cols <= 0x1_0000) by (nonlinear_arith)
                    requires
                        0 <= actual_rows <= 256,
                        0 <= actual_cols <= 256,
                ;
                assert(0 <= (actual_rows * actual_cols) * bit_width <= 0x100_0000)
                    by (nonlinear_arith)
                    requires
                        0 <= actual_rows * actual_cols <= 0x1_0000,
                        0 <= bit_width <= 0xff,
                ;
            }
            let total_bits: usize = actual_rows * actual_cols * bit_width as usize;
            let packed_bytes: usize = (total_bits + 7) / 8;
            assert(abs_start + 3 + packed_bytes == model.block_end(bi as int));
            let block_end: usize = abs_start + 3 + packed_bytes;
            if block_end > max_data_end {
                max_data_end = block_end;
            }
            proof {
                if max_data_end == block_end {
                    assert(model.block_end(bi as int) == max_data_end);
                }
            }
            bi = bi + 1;
        }
        let consumed: usize = max_data_end - offset;
        Ok(
            (
                ConnectionMatrix {
                    buf: CowBytes::borrowed(buf),
                    num_left,
                    num_right,
                    num_col_blocks,
                    block_offsets_start,
                    data_start,
                },
                consumed,
            ),
        )
    }

    /// The packed matrix at byte `offset`, and the number of bytes that it takes up. Returns nothing
    /// where it is cut off behind its numbers of columns and rows.
    pub fn checked_bitpacked(buf: &'a [u8], offset: usize) -> (res: Option<
        SudachiResult<(ConnectionMatrix<'a>, usize)>,
    >)
        requires
            offset <= buf.len(),
        ensures
            match bitpacked_section(buf@, offset as int) {
                Some(Ok((model, used))) => res matches Some(Ok((m, consumed))) && m.model()
                    == model && consumed == used && offset + consumed <= buf.len()
                    && is_readable(model),
                Some(Err(e)) => res matches Some(Err(got)) && got.model() == e,
                None => res is None,
            },
    {
        if buf.len() - offset < 4 {
            return Some(
                Err(SudachiError::InvalidDictionaryGrammar.with_context("bitpacked conn header")),
            );
        }
        if buf.len() - offset < 8 || !has_whole_blocks(buf, offset) {
            return None;
        }
        proof {
            let model = bitpacked_model(buf@, offset as int);
            let n = bytes::u32_at(buf@, offset + 4);
            lemma_whole_is_readable(buf@, offset as int);
            lemma_data_end(model, n as nat, 0);
            assert forall|bi: int| 0 <= bi < n implies (#[trigger] model.block_start(bi)) + 3
                <= buf.len() && model.block_end(bi) <= usize::MAX by {
                assert(block_is_whole(model, bi));
            }
            assert forall|bi: int| 0 <= bi < n implies #[trigger] model.block_end(bi) <= data_end(
                model,
                n as nat,
            ) && model.block_end(bi) <= buf.len() by {
                lemma_data_end(model, n as nat, bi);
                assert(block_is_whole(model, bi));
            }
        }
        Some(ConnectionMatrix::from_bitpacked(buf, offset))
    }

    /// The same matrix, independent of the bytes that it was read from.
    pub fn into_owned<'b>(self) -> (matrix: ConnectionMatrix<'b>)
        ensures
            matrix.model() == self.model(),
    {
        ConnectionMatrix {
            buf: self.buf.into_owned(),
            num_left: self.num_left,
            num_right: self.num_right,
            num_col_blocks: self.num_col_blocks,
            block_offsets_start: self.block_offsets_start,
            data_start: self.data_start,
        }
    }

    /// The cost in a column and a row.
    pub fn cost(&self, left: u16, right: u16) -> (cost: i16)
        requires
            left < self.model().num_left,
            right < self.model().num_right,
            self.model().cell(left as int, right as int) is Some,
        ensures
            self.model().cell(left as int, right as int) == Some(cost),
    {
        let uleft: usize = left as usize;
        let uright: usize = right as usize;
        let ghost model = self.model();
        let buf = self.buf.as_slice();
        assert(buf.len() == model.buf.len());
        if self.num_col_blocks == 0 {
            proof {
                assert(0 <= uright * self.num_left) by (nonlinear_arith)
                    requires
                        0 <= uright,
                        0 <= self.num_left,
                ;
            }
            let index: usize = uright * self.num_left + uleft;
            let pos: usize = self.data_start + index * 2;
            return bytes::read_i16(buf, pos);
        }
        let col_block: usize = uleft / BLOCK_SIZE;
        let row_block: usize = uright / BLOCK_SIZE;
        let local_col: usize = uleft % BLOCK_SIZE;
        let local_row: usize = uright % BLOCK_SIZE;
        let actual_cols: usize = extent_in_block(self.num_left, col_block);
        proof {
            assert(0 <= row_block * self.num_col_blocks) by (nonlinear_arith)
                requires
                    0 <= row_block,
                    0 <= self.num_col_blocks,
            ;
            assert(model.block_of(left as int, right as int) == row_block * self.num_col_blocks
                + col_block);
        }
        let block_idx: usize = row_block * self.num_col_blocks + col_block;
        let bo_off: usize = self.block_offsets_start + block_idx * 4;
        let block_offset: usize = bytes::read_u32(buf, bo_off) as usize;
        assert(model.block_start(block_idx as int) + 3 <= buf.len());
        let abs_start: usize = self.data_start + block_offset;
        let min_val: i16 = bytes::read_i16(buf, abs_start);
        let bit_width: u8 = buf[abs_start + 2];
        if bit_width == 0 {
            return min_val;
        }
        proof {
            assert(0 <= local_row * actual_cols <= 255 * 256) by (nonlinear_arith)
                requires
                    0 <= local_row <= 255,
                    0 <= actual_cols <= 256,
            ;
        }
        let cell_index: usize = local_row * actual_cols + local_col;
        proof {
            assert(0 <= cell_index * bit_width <= 0x1_0000 * 0xff) by (nonlinear_arith)
                requires
                    0 <= cell_index <= 0x1_0000,
                    0 <= bit_width <= 0xff,
            ;
        }
        let bit_offset: usize = cell_index * bit_width as usize;
        let packed_start: usize = abs_start + 3;
        let packed = slice_subrange(buf, packed_start, buf.len());
        assert(packed@ =~= buf@.skip(packed_start as int));
        let extracted: u32 = compact::extract_bits(packed, bit_offset, bit_width);
        wrap_i16(min_val as i64 + extracted as i64)
    }

    /// Leaves the matrix as it is: a matrix in this form is read-only.
    pub fn update(&mut self, _left: u16, _right: u16, _value: i16)
        ensures
            *final(self) == *old(self),
    {
    }

    /// Number of columns.
    pub fn num_left(&self) -> (n: usize)
        ensures
            n == self.model().num_left,
    {
        self.num_left
    }

    /// Number of rows.
    pub fn num_right(&self) -> (n: usize)
        ensures
            n == self.model().num_right,
    {
        self.num_right
    }
}

/// Whether the packed matrix at `offset` lies within the bytes, and has a block for each of its
/// cells.
fn has_whole_blocks(buf: &[u8], offset: usize) -> (whole: bool)
    requires
        offset + 8 <= buf.len(),
    ensures
        whole == is_whole(buf@, offset as int),
{
    let ghost model = bitpacked_model(buf@, offset as int);
    let num_left: usize = bytes::read_u16(buf, offset) as usize;
    let num_right: usize = bytes::read_u16(buf, offset + 2) as usize;
    let num_blocks: usize = bytes::read_u32(buf, offset + 4) as usize;
    if num_blocks > (buf.len() - offset - 8) / 4 || (num_blocks > 0 && num_left == 0) {
        return false;
    }
    let data_start: usize = offset + 8 + num_blocks * 4;
    let num_col_blocks: usize = (num_left + BLOCK_SIZE - 1) / BLOCK_SIZE;
    let num_row_blocks: usize = (num_right + BLOCK_SIZE - 1) / BLOCK_SIZE;
    proof {
        assert(0 <= num_row_blocks * num_col_blocks <= 256 * 256) by (nonlinear_arith)
            requires
                0 <= num_row_blocks <= 256,
                0 <= num_col_blocks <= 256,
        ;
    }
    if num_row_blocks * num_col_blocks > num_blocks {
        return false;
    }
    let mut bi: usize = 0;
    while bi < num_blocks
        invariant
            bi <= num_blocks,
            num_blocks == bytes::u32_at(buf@, offset + 4),
            model == bitpacked_model(buf@, offset as int),
            num_left == model.num_left,
            num_right == model.num_right,
            num_left <= 0xffff,
            num_right <= 0xffff,
            num_col_blocks == model.num_col_blocks,
            num_blocks > 0 ==> num_col_blocks > 0,
            data_start == model.data_start,
            data_start == offset + 8 + 4 * num_blocks,
            data_start <= buf.len(),
            forall|k: int| 0 <= k < bi ==> #[trigger] block_is_whole(model, k),
        decreases num_blocks - bi,
    {
        let block_offset: usize = bytes::read_u32(buf, offset + 8 + 4 * bi) as usize;
        if block_offset > buf.len() - data_start || buf.len() - data_start - block_offset < 3 {
            assert(!block_is_whole(model, bi as int));
            return false;
        }
        let abs_start: usize = data_start + block_offset;
        assert(abs_start == model.block_start(bi as int));
        let bit_width: u8 = buf[abs_start + 2];
        let actual_rows: usize = extent_in_block(num_right, bi / num_col_blocks);
        let actual_cols: usize = extent_in_block(num_left, bi % num_col_blocks);
        proof {
            assert(0 <= actual_rows * actual_cols <= 0x1_0000) by (nonlinear_arith)
                requires
                    0 <= actual_rows <= 256,
                    0 <= actual_cols <= 256,
            ;
            assert(0 <= (actual_rows * actual_cols) * bit_width <= 0x100_0000)
                by (nonlinear_arith)
                requires
                    0 <= actual_rows * actual_cols <= 0x1_0000,
                    0 <= bit_width <= 0xff,
            ;
        }
        let packed_bytes: usize = (actual_rows * actual_cols * bit_width as usize + 7) / 8;
        assert(abs_start + 3 + packed_bytes == model.block_end(bi as int));
        if bit_width > 32 || packed_bytes > buf.len() - abs_start - 3 {
            assert(!block_is_whole(model, bi as int));
            return false;
        }
        assert(block_is_whole(model, bi as int));
        bi = bi + 1;
    }
    true
}

/// How many of `total` rows or columns lie in block `block`.
fn extent_in_block(total: usize, block: usize) -> (extent: usize)
    ensures
        extent == block_extent(total as int, block as int),
        extent <= BLOCK_SIZE,
{
    if block > total / BLOCK_SIZE {
        return 0;
    }
    let rest: usize = total - block * BLOCK_SIZE;
    if rest < BLOCK_SIZE {
        rest
    } else {
        BLOCK_SIZE
    }
}

/// The 16-bit integer that `v` wraps around to.
fn wrap_i16(v: i64) -> (wrapped: i16)
    requires
        -0x8000 <= v <= 0x2_0000_0000,
    ensures
        wrapped == wrapped_i16(v as int),
{
    let low: i64 = (v + 0x1_0000) % 0x1_0000;
    assert((v + 0x1_0000) % 0x1_0000 == v % 0x1_0000);
    if low < 0x8000 {
        low as i16
    } else {
        (low - 0x1_0000) as i16
    }
}

/// A matrix whose cells are stored as the format says has exactly those costs.
pub proof fn law_packed_costs(model: MatrixModel, costs: spec_fn(int, int) -> i16)
    requires
        model.num_col_blocks > 0,
        model.packs(costs),
    ensures
        model.holds(costs),
{
    assert forall|left: int, right: int|
        0 <= left < model.num_left && 0 <= right < model.num_right implies #[trigger] model.cell(
        left,
        right,
    ) == Some(costs(left, right)) by {
        let cost = costs(left, right);
        assert(model.packs_cell(left, right, cost));
        let start = model.block_start(model.block_of(left, right));
        let width = model.buf[start + 2] as int;
        let min_val = bytes::i16_at(model.buf, start);
        let bit = model.cell_bit(left, right, width);
        let field = compact::bit_field(model.buf.skip(start + 3), bit, width as nat);
        assert(min_val + field == cost);
    }
}

/// An uncompressed matrix has the costs of the flat matrix in the same bytes.
pub proof fn law_uncompressed_costs(
    model: MatrixModel,
    flat: crate::dic::connect::flat::ConnectionMatrix,
)
    requires
        model.num_col_blocks == 0,
        flat.wf(),
        flat.columns() == model.num_left,
        flat.rows() == model.num_right,
        model.data_start + 2 * flat.costs().len() <= model.buf.len(),
        flat.costs() == bytes::i16s_at(model.buf, model.data_start as int, flat.costs().len()),
    ensures
        model.holds(|left: int, right: int| flat.cost_at(left, right)),
{
    assert forall|left: int, right: int|
        0 <= left < model.num_left && 0 <= right < model.num_right implies #[trigger] model.cell(
        left,
        right,
    ) == Some(flat.cost_at(left, right)) by {
        flat.lemma_index(left, right);
    }
}

/// The four bytes at `p` as a number, the lowest byte first.
pub open spec fn four_bytes(s: Seq<u8>, p: int) -> int {
    s[p] + 0x100 * s[p + 1] + 0x1_0000 * s[p + 2] + 0x100_0000 * s[p + 3]
}

/// A cost of a packed matrix is found by its bytes. The matrix begins with its numbers of columns,
/// rows and blocks, and the places of the blocks, row after row of blocks of 256 columns and rows,
/// the last ones with what is left. A block holds its minimum, the number of bits for a cell, and
/// for its cells, row after row, the differences to the minimum. The cost is the sum of both,
/// within 16 bits, whether the minimum is negative or not.
pub proof fn law_cell_is_minimum_and_difference(
    buf: Seq<u8>,
    offset: int,
    columns: int,
    block_row: int,
    block_column: int,
    row: int,
    column: int,
)
    requires
        0 <= offset,
        offset + 8 <= buf.len(),
        256 * (columns - 1) < buf[offset] + 0x100 * buf[offset + 1] <= 256 * columns,
        0 <= block_row,
        0 <= block_column,
        0 <= row < 256,
        0 <= column < 256,
        256 * block_column + column < buf[offset] + 0x100 * buf[offset + 1],
        256 * block_row + row < buf[offset + 2] + 0x100 * buf[offset + 3],
        offset + 8 + 4 * (block_row * columns + block_column) + 4 <= buf.len(),
        ({
            let left_over = buf[offset] + 0x100 * buf[offset + 1] - 256 * block_column;
            let extent = if left_over < 256 { left_over } else { 256 };
            let start = offset + 8 + 4 * four_bytes(buf, offset + 4) + four_bytes(
                buf,
                offset + 8 + 4 * (block_row * columns + block_column),
            );
            let width = buf[start + 2] as int;
            &&& start + 3 <= buf.len()
            &&& width <= 32
            &&& (row * extent + column) * width + width <= 8 * (buf.len() - start - 3)
        }),
    ensures
        ({
            let left_over = buf[offset] + 0x100 * buf[offset + 1] - 256 * block_column;
            let extent = if left_over < 256 { left_over } else { 256 };
            let start = offset + 8 + 4 * four_bytes(buf, offset + 4) + four_bytes(
                buf,
                offset + 8 + 4 * (block_row * columns + block_column),
            );
            let width = buf[start + 2] as int;
            let field = compact::bit_field(
                buf.skip(start + 3),
                (row * extent + column) * width,
                width as nat,
            );
            bitpacked_model(buf, offset).cell(
                256 * block_column + column,
                256 * block_row + row,
            ) matches Some(cost) && (cost - buf[start] - 0x100 * buf[start + 1] - field)
                % 0x1_0000 == 0
        }),
{
    let m = bitpacked_model(buf, offset);
    let left = 256 * block_column + column;
    let right = 256 * block_row + row;
    assert(m.num_col_blocks == columns);
    assert(left / 256 == block_column && left % 256 == column);
    assert(right / 256 == block_row && right % 256 == row);
    let bi = m.block_of(left, right);
    assert(bi == block_row * columns + block_column);
    assert(bytes::u32_at(buf, offset + 4) == four_bytes(buf, offset + 4));
    let p = offset + 8 + 4 * bi;
    assert(m.block_offsets_start + 4 * bi == p);
    assert(bi >= 0) by (nonlinear_arith)
        requires
            bi == block_row * columns + block_column,
            block_row >= 0,
            block_column >= 0,
            columns >= 0,
    ;
    assert(bytes::u32_at(buf, p) == four_bytes(buf, p));
    let start = m.block_start(bi);
    let width = buf[start + 2] as int;
    let extent = block_extent(m.num_left as int, block_column);
    let bit = (row * extent + column) * width;
    assert(m.cell_bit(left, right, width) == bit);
    let field = compact::bit_field(buf.skip(start + 3), bit, width as nat);
    let low = buf[start] + 0x100 * buf[start + 1];
    let cost = m.cell(left, right).unwrap();
    assert(width == 0 ==> field == 0);
    let sum = bytes::i16_at(buf, start) + field;
    assert(cost == wrapped_i16(sum) || (width == 0 && cost == sum));
    assert((cost - low - field) % 0x1_0000 == 0);
}

/// A packed matrix ends with its blocks: none of them ends behind it, and one of them ends where it
/// does, unless there are none. A block ends behind its three first bytes and the bits of its
/// cells, as many for each as its third byte says, filled up to a whole byte; a block has 256
/// columns and rows, or what is left of them.
pub proof fn law_packed_matrix_ends_with_its_blocks(
    buf: Seq<u8>,
    offset: int,
    m: MatrixModel,
    used: int,
    columns: int,
    block_row: int,
    block_column: int,
)
    requires
        0 <= offset,
        bitpacked_section(buf, offset) == Some(Ok::<(MatrixModel, int), error::ErrorModel>((m, used))),
        256 * (columns - 1) < m.num_left <= 256 * columns,
        0 <= block_row,
        0 <= block_column < columns,
        256 * block_row < m.num_right,
        block_row * columns + block_column < four_bytes(buf, offset + 4),
    ensures
        ({
            let wide = m.num_left - 256 * block_column;
            let high = m.num_right - 256 * block_row;
            let cells = (if high < 256 { high } else { 256 }) * (if wide < 256 {
                wide
            } else {
                256
            });
            let start = offset + 8 + 4 * four_bytes(buf, offset + 4) + four_bytes(
                buf,
                offset + 8 + 4 * (block_row * columns + block_column),
            );
            start + 3 + (cells * buf[start + 2] + 7) / 8 <= offset + used
        }),
        m.num_left == buf[offset] + 0x100 * buf[offset + 1],
        m.num_right == buf[offset + 2] + 0x100 * buf[offset + 3],
        m.buf == buf,
        used >= 8 + 4 * four_bytes(buf, offset + 4),
        used == 8 + 4 * four_bytes(buf, offset + 4) || exists|bi: int|
            0 <= bi < four_bytes(buf, offset + 4) && #[trigger] m.block_end(bi) == offset + used,
{
    let n = bytes::u32_at(buf, offset + 4);
    let bi = block_row * columns + block_column;
    assert(n == four_bytes(buf, offset + 4));
    assert(m.num_col_blocks == columns);
    assert(bi >= 0) by (nonlinear_arith)
        requires
            bi == block_row * columns + block_column,
            block_row >= 0,
            block_column >= 0,
            columns >= 0,
    ;
    vstd::arithmetic::div_mod::lemma_fundamental_div_mod_converse(
        bi,
        columns,
        block_row,
        block_column,
    );
    lemma_data_end(m, n as nat, bi);
    let p = offset + 8 + 4 * bi;
    assert(bytes::u32_at(buf, p) == four_bytes(buf, p));
}

} // verus!
