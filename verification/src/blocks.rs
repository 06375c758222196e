use vstd::prelude::*;
use vstd::arithmetic::div_mod::{lemma_fundamental_div_mod, lemma_fundamental_div_mod_converse};
use crate::bits::{bits_of_bytes, bits_to_bytes, bytes_of_bits, bytes_to_bits, is_bits};
use crate::ecc::{generate_ecc, rs_parity};
use crate::ecc_data::{
    block_count, block_layout, data_codewords, ecc_per_block, get_block_info, lemma_table_bounds,
    total_codewords, BlockLayout,
};
use crate::types::{ErrorCorrection, Version};

verus! {

/// The number of blocks of a layout.
pub open spec fn blocks_of(l: BlockLayout) -> int {
    l.g1_blocks + l.g2_blocks
}

/// The number of data codewords of a layout.
pub open spec fn data_len(l: BlockLayout) -> int {
    l.g1_blocks * l.g1_dc + l.g2_blocks * l.g2_dc
}

/// The place of the first codeword of block `b` among the data codewords.
pub open spec fn block_start(l: BlockLayout, b: int) -> int {
    if b <= l.g1_blocks {
        b * l.g1_dc
    } else {
        l.g1_blocks * l.g1_dc + (b - l.g1_blocks) * l.g2_dc
    }
}

/// The number of data codewords of block `b`.
pub open spec fn block_len(l: BlockLayout, b: int) -> int {
    if b < l.g1_blocks {
        l.g1_dc
    } else {
        l.g2_dc
    }
}

/// The data codewords of block `b`: the blocks are cut off the data codewords in order.
pub open spec fn data_block(codewords: Seq<u8>, l: BlockLayout, b: int) -> Seq<u8> {
    codewords.subrange(block_start(l, b), block_start(l, b) + block_len(l, b))
}

/// The parity codewords of block `b`.
pub open spec fn parity_block(codewords: Seq<u8>, l: BlockLayout, b: int) -> Seq<u8> {
    rs_parity(data_block(codewords, l, b), l.ecc_per_block as nat)
}

/// The place in the interleaved data of codeword `c` of block `b`: the codewords go
/// out column by column, and the last column holds the long blocks only.
pub open spec fn data_index(l: BlockLayout, b: int, c: int) -> int {
    if c < l.g1_dc {
        c * blocks_of(l) + b
    } else {
        l.g1_dc * blocks_of(l) + (b - l.g1_blocks)
    }
}

/// The block that the interleaved data codeword of index `i` comes from.
pub open spec fn source_block(l: BlockLayout, i: int) -> int {
    if i < l.g1_dc * blocks_of(l) {
        i % blocks_of(l)
    } else {
        l.g1_blocks + (i - l.g1_dc * blocks_of(l))
    }
}

/// The column that the interleaved data codeword of index `i` comes from.
pub open spec fn source_column(l: BlockLayout, i: int) -> int {
    if i < l.g1_dc * blocks_of(l) {
        i / blocks_of(l)
    } else {
        l.g1_dc
    }
}

/// The data codewords interleaved: column by column, and in each column block by block.
pub open spec fn interleaved_data(codewords: Seq<u8>, l: BlockLayout) -> Seq<u8> {
    Seq::new(
        data_len(l) as nat,
        |i: int| data_block(codewords, l, source_block(l, i))[source_column(l, i)],
    )
}

/// The parity codewords interleaved in the same way; all blocks have equally many.
pub open spec fn interleaved_parity(codewords: Seq<u8>, l: BlockLayout) -> Seq<u8> {
    Seq::new(
        (blocks_of(l) * l.ecc_per_block) as nat,
        |i: int| parity_block(codewords, l, i % blocks_of(l))[i / blocks_of(l)],
    )
}

/// The codewords of a symbol in the order in which they are placed: the interleaved
/// data codewords, then the interleaved parity codewords.
pub open spec fn codeword_stream(codewords: Seq<u8>, l: BlockLayout) -> Seq<u8> {
    interleaved_data(codewords, l) + interleaved_parity(codewords, l)
}

/// The interleaved parity codewords, as bits, of data codewords given as bits.
pub open spec fn ecc_stream_bits(v: int, ec: ErrorCorrection, data_bits: Seq<u8>) -> Seq<u8> {
    bits_of_bytes(interleaved_parity(bytes_of_bits(data_bits), block_layout(v, ec)))
}

/// The interleaved data codewords, as bits, of data codewords given as bits.
pub open spec fn data_stream_bits(v: int, ec: ErrorCorrection, data_bits: Seq<u8>) -> Seq<u8> {
    bits_of_bytes(interleaved_data(bytes_of_bits(data_bits), block_layout(v, ec)))
}

/// Block `b` as it is read back from a stream of interleaved codewords: its data
/// codewords, then its parity codewords.
pub open spec fn received_block(stream: Seq<u8>, l: BlockLayout, b: int) -> Seq<u8> {
    Seq::new(
        (block_len(l, b) + l.ecc_per_block) as nat,
        |c: int|
            if c < block_len(l, b) {
                stream[data_index(l, b, c)]
            } else {
                stream[data_len(l) + (c - block_len(l, b)) * blocks_of(l) + b]
            },
    )
}

/// Whether the layout is one that a symbol can have.
pub open spec fn is_layout(l: BlockLayout) -> bool {
    &&& 1 <= l.g1_blocks
    &&& 0 <= l.g2_blocks
    &&& blocks_of(l) <= 81
    &&& 1 <= l.g1_dc
    &&& l.g2_blocks > 0 ==> l.g2_dc == l.g1_dc + 1
    &&& l.g2_blocks == 0 ==> l.g2_dc == 0
    &&& 1 <= l.ecc_per_block <= 30
    &&& l.g1_dc + 1 + l.ecc_per_block <= 153
}

/// The layout of every version and level is one that a symbol can have, and
/// accounts for all the codewords.
pub proof fn lemma_layout(v: int, ec: ErrorCorrection)
    requires
        1 <= v <= 40,
    ensures
        is_layout(block_layout(v, ec)),
        data_len(block_layout(v, ec)) == data_codewords(v, ec),
        blocks_of(block_layout(v, ec)) == block_count(v, ec),
        block_layout(v, ec).ecc_per_block == ecc_per_block(v, ec),
        data_len(block_layout(v, ec)) + blocks_of(block_layout(v, ec)) * block_layout(
            v,
            ec,
        ).ecc_per_block == total_codewords(v),
{
    lemma_table_bounds(v, ec);
}

/// The blocks lie side by side within the data codewords.
pub proof fn lemma_block_bounds(l: BlockLayout, b: int)
    requires
        is_layout(l),
        0 <= b < blocks_of(l),
    ensures
        0 <= block_start(l, b),
        block_start(l, b) + block_len(l, b) == block_start(l, b + 1),
        block_start(l, b + 1) <= data_len(l),
        1 <= block_len(l, b) <= 153,
        block_start(l, blocks_of(l)) == data_len(l),
        data_len(l) <= 81 * 153,
{
    assert(b * l.g1_dc + l.g1_dc == (b + 1) * l.g1_dc) by (nonlinear_arith);
    assert((b - l.g1_blocks) * l.g2_dc + l.g2_dc == (b + 1 - l.g1_blocks) * l.g2_dc)
        by (nonlinear_arith);
    if b == l.g1_blocks {
        assert((b + 1 - l.g1_blocks) * l.g2_dc == l.g2_dc) by (nonlinear_arith)
            requires
                b == l.g1_blocks,
        ;
    }
    if b < l.g1_blocks {
        assert((b + 1) * l.g1_dc <= l.g1_blocks * l.g1_dc) by (nonlinear_arith)
            requires
                b + 1 <= l.g1_blocks,
                l.g1_dc >= 0,
        ;
        assert(l.g2_blocks * l.g2_dc >= 0) by (nonlinear_arith)
            requires
                l.g2_blocks >= 0,
                l.g2_dc >= 0,
        ;
    } else {
        assert((b + 1 - l.g1_blocks) * l.g2_dc <= l.g2_blocks * l.g2_dc) by (nonlinear_arith)
            requires
                b + 1 - l.g1_blocks <= l.g2_blocks,
                l.g2_dc >= 0,
        ;
    }
    assert(0 <= b * l.g1_dc) by (nonlinear_arith)
        requires
            0 <= b,
            0 <= l.g1_dc,
    ;
    assert(0 <= (b - l.g1_blocks) * l.g2_dc || b < l.g1_blocks) by (nonlinear_arith)
        requires
            0 <= l.g2_dc,
    ;
    assert(l.g1_blocks * l.g1_dc + l.g2_blocks * l.g2_dc <= 81 * 153) by (nonlinear_arith)
        requires
            0 <= l.g1_blocks,
            0 <= l.g2_blocks,
            l.g1_blocks + l.g2_blocks <= 81,
            0 <= l.g1_dc <= 153,
            0 <= l.g2_dc <= 153,
    ;
    if l.g2_blocks == 0 {
        assert(l.g2_blocks * l.g2_dc == 0) by (nonlinear_arith)
            requires
                l.g2_blocks == 0,
        ;
    }
    assert((blocks_of(l) - l.g1_blocks) * l.g2_dc == l.g2_blocks * l.g2_dc);
}

/// Each interleaved data codeword comes from a codeword of a block, and goes back
/// to its own place.
pub proof fn lemma_source(l: BlockLayout, i: int)
    requires
        is_layout(l),
        0 <= i < data_len(l),
    ensures
        0 <= source_block(l, i) < blocks_of(l),
        0 <= source_column(l, i) < block_len(l, source_block(l, i)),
        data_index(l, source_block(l, i), source_column(l, i)) == i,
{
    let n = blocks_of(l);
    assert(data_len(l) == l.g1_dc * n + l.g2_blocks * (l.g2_dc - l.g1_dc)) by (nonlinear_arith)
        requires
            n == l.g1_blocks + l.g2_blocks,
            data_len(l) == l.g1_blocks * l.g1_dc + l.g2_blocks * l.g2_dc,
    ;
    if l.g2_blocks == 0 {
        assert(l.g2_blocks * (l.g2_dc - l.g1_dc) == 0) by (nonlinear_arith)
            requires
                l.g2_blocks == 0,
        ;
    } else {
        assert(l.g2_blocks * (l.g2_dc - l.g1_dc) == l.g2_blocks) by (nonlinear_arith)
            requires
                l.g2_dc - l.g1_dc == 1,
        ;
    }
    if i < l.g1_dc * n {
        lemma_fundamental_div_mod(i, n);
        assert(0 <= i % n < n);
        assert(i / n < l.g1_dc) by (nonlinear_arith)
            requires
                i == n * (i / n) + i % n,
                0 <= i % n,
                i < l.g1_dc * n,
                n > 0,
        ;
        assert(0 <= i / n) by (nonlinear_arith)
            requires
                i == n * (i / n) + i % n,
                i % n < n,
                0 <= i,
                n > 0,
        ;
        assert((i / n) * n == n * (i / n)) by (nonlinear_arith);
    }
}

/// Each codeword of a block has its own place in the interleaved data.
pub proof fn lemma_data_index(l: BlockLayout, b: int, c: int)
    requires
        is_layout(l),
        0 <= b < blocks_of(l),
        0 <= c < block_len(l, b),
    ensures
        0 <= data_index(l, b, c) < data_len(l),
        source_block(l, data_index(l, b, c)) == b,
        source_column(l, data_index(l, b, c)) == c,
{
    let n = blocks_of(l);
    assert(data_len(l) == l.g1_dc * n + l.g2_blocks * (l.g2_dc - l.g1_dc)) by (nonlinear_arith)
        requires
            n == l.g1_blocks + l.g2_blocks,
            data_len(l) == l.g1_blocks * l.g1_dc + l.g2_blocks * l.g2_dc,
    ;
    if l.g2_blocks == 0 {
        assert(l.g2_blocks * (l.g2_dc - l.g1_dc) == 0) by (nonlinear_arith)
            requires
                l.g2_blocks == 0,
        ;
    } else {
        assert(l.g2_blocks * (l.g2_dc - l.g1_dc) == l.g2_blocks) by (nonlinear_arith)
            requires
                l.g2_dc - l.g1_dc == 1,
        ;
    }
    if c < l.g1_dc {
        let i = c * n + b;
        lemma_fundamental_div_mod_converse(i, n, c, b);
        assert(c * n + b < l.g1_dc * n) by (nonlinear_arith)
            requires
                0 <= c < l.g1_dc,
                0 <= b < n,
        ;
        assert(0 <= c * n) by (nonlinear_arith)
            requires
                0 <= c,
                0 <= n,
        ;
    }
}

/// The place of a parity codeword in the interleaved parity, and back.
pub proof fn lemma_parity_index(l: BlockLayout, b: int, c: int)
    requires
        is_layout(l),
        0 <= b < blocks_of(l),
        0 <= c < l.ecc_per_block,
    ensures
        0 <= c * blocks_of(l) + b < blocks_of(l) * l.ecc_per_block,
        (c * blocks_of(l) + b) % blocks_of(l) == b,
        (c * blocks_of(l) + b) / blocks_of(l) == c,
{
    let n = blocks_of(l);
    lemma_fundamental_div_mod_converse(c * n + b, n, c, b);
    assert(c * n + b < n * l.ecc_per_block) by (nonlinear_arith)
        requires
            0 <= c < l.ecc_per_block,
            0 <= b < n,
    ;
    assert(0 <= c * n) by (nonlinear_arith)
        requires
            0 <= c,
            0 <= n,
    ;
}

/// Interleaving round trip: every block is read back from the interleaved stream
/// as its data codewords followed by its parity codewords.
pub proof fn lemma_received_block(codewords: Seq<u8>, l: BlockLayout, b: int)
    requires
        is_layout(l),
        codewords.len() == data_len(l),
        0 <= b < blocks_of(l),
    ensures
        received_block(codeword_stream(codewords, l), l, b) == data_block(codewords, l, b)
            + parity_block(codewords, l, b),
{
    let stream = codeword_stream(codewords, l);
    let got = received_block(stream, l, b);
    let data = data_block(codewords, l, b);
    let parity = parity_block(codewords, l, b);
    lemma_block_bounds(l, b);
    crate::ecc::lemma_encoded_is_codeword(data, l.ecc_per_block as nat);
    assert forall|c: int| 0 <= c < got.len() implies got[c] == (data + parity)[c] by {
        if c < block_len(l, b) {
            lemma_data_index(l, b, c);
        } else {
            lemma_parity_index(l, b, c - block_len(l, b));
        }
    }
    assert(got =~= data + parity);
}

/// The layout of a version and level, as executable numbers.
pub struct Layout {
    pub g1_blocks: usize,
    pub g1_dc: usize,
    pub g2_blocks: usize,
    pub g2_dc: usize,
    pub ecc_per_block: usize,
}

impl View for Layout {
    type V = BlockLayout;

    open spec fn view(&self) -> BlockLayout {
        BlockLayout {
            g1_blocks: self.g1_blocks as int,
            g1_dc: self.g1_dc as int,
            g2_blocks: self.g2_blocks as int,
            g2_dc: self.g2_dc as int,
            ecc_per_block: self.ecc_per_block as int,
        }
    }
}

/// The block layout of a version and level.
pub fn get_layout(version: Version, error_correction: ErrorCorrection) -> (layout: Layout)
    ensures
        layout@ == block_layout(version.number(), error_correction),
        is_layout(layout@),
{
    proof {
        version.lemma_number_range();
        lemma_layout(version.number(), error_correction);
    }
    let info = get_block_info(version, error_correction);
    Layout {
        g1_blocks: info.0,
        g1_dc: info.1,
        g2_blocks: info.2,
        g2_dc: info.3,
        ecc_per_block: info.4,
    }
}

/// The place of the first codeword of a block among the data codewords.
pub fn get_block_start(layout: &Layout, block: usize) -> (start: usize)
    requires
        is_layout(layout@),
        block <= blocks_of(layout@),
    ensures
        start == block_start(layout@, block as int),
        start <= 81 * 153,
{
    proof {
        if block < blocks_of(layout@) {
            lemma_block_bounds(layout@, block as int);
        } else {
            lemma_block_bounds(layout@, block - 1);
        }
        assert(block * layout.g1_dc <= 81 * 153) by (nonlinear_arith)
            requires
                block <= 81,
                layout.g1_dc <= 153,
        ;
        assert(layout.g1_blocks * layout.g1_dc <= 81 * 153) by (nonlinear_arith)
            requires
                layout.g1_blocks <= 81,
                layout.g1_dc <= 153,
        ;
        assert((block - layout.g1_blocks) * layout.g2_dc <= 81 * 153 || block
            <= layout.g1_blocks) by (nonlinear_arith)
            requires
                block <= 81,
                layout.g2_dc <= 153,
                layout.g1_blocks >= 1,
        ;
    }
    if block <= layout.g1_blocks {
        block * layout.g1_dc
    } else {
        layout.g1_blocks * layout.g1_dc + (block - layout.g1_blocks) * layout.g2_dc
    }
}

/// The number of data codewords of a block.
pub fn get_block_len(layout: &Layout, block: usize) -> (len: usize)
    ensures
        len == block_len(layout@, block as int),
{
    if block < layout.g1_blocks {
        layout.g1_dc
    } else {
        layout.g2_dc
    }
}

/// A copy of the entries from `from` up to `to`.
pub fn copy_range(values: &[u8], from: usize, to: usize) -> (out: Vec<u8>)
    requires
        from <= to <= values.len(),
    ensures
        out@ == values@.subrange(from as int, to as int),
{
    let mut out: Vec<u8> = Vec::new();
    let mut i: usize = from;
    while i < to
        invariant
            from <= i <= to <= values.len(),
            out@ == values@.subrange(from as int, i as int),
        decreases to - i,
    {
        out.push(values[i]);
        proof {
            assert(values@.subrange(from as int, i + 1) =~= values@.subrange(
                from as int,
                i as int,
            ).push(values@[i as int]));
        }
        i = i + 1;
    }
    out
}

/// The data codewords cut into blocks.
pub fn split_blocks(codewords: &[u8], layout: &Layout) -> (blocks: Vec<Vec<u8>>)
    requires
        is_layout(layout@),
        codewords.len() == data_len(layout@),
    ensures
        blocks.len() == blocks_of(layout@),
        forall|b: int|
            0 <= b < blocks.len() ==> (#[trigger] blocks[b])@ == data_block(codewords@, layout@, b),
{
    let count: usize = layout.g1_blocks + layout.g2_blocks;
    let mut blocks: Vec<Vec<u8>> = Vec::new();
    let mut b: usize = 0;
    while b < count
        invariant
            b <= count,
            count == blocks_of(layout@),
            is_layout(layout@),
            codewords.len() == data_len(layout@),
            blocks.len() == b,
            forall|q: int|
                0 <= q < b ==> (#[trigger] blocks[q])@ == data_block(codewords@, layout@, q),
        decreases count - b,
    {
        proof {
            lemma_block_bounds(layout@, b as int);
        }
        let start: usize = get_block_start(layout, b);
        let len: usize = get_block_len(layout, b);
        let block = copy_range(codewords, start, start + len);
        blocks.push(block);
        b = b + 1;
    }
    blocks
}

/// The parity codewords of each block.
pub fn block_parities(codewords: &[u8], layout: &Layout) -> (parities: Vec<Vec<u8>>)
    requires
        is_layout(layout@),
        codewords.len() == data_len(layout@),
    ensures
        parities.len() == blocks_of(layout@),
        forall|b: int|
            0 <= b < parities.len() ==> (#[trigger] parities[b])@ == parity_block(
                codewords@,
                layout@,
                b,
            ),
        forall|b: int|
            0 <= b < parities.len() ==> (#[trigger] parities[b]).len() == layout.ecc_per_block,
{
    let blocks = split_blocks(codewords, layout);
    let mut parities: Vec<Vec<u8>> = Vec::new();
    let mut b: usize = 0;
    while b < blocks.len()
        invariant
            b <= blocks.len(),
            blocks.len() == blocks_of(layout@),
            is_layout(layout@),
            codewords.len() == data_len(layout@),
            forall|q: int|
                0 <= q < blocks.len() ==> (#[trigger] blocks[q])@ == data_block(
                    codewords@,
                    layout@,
                    q,
                ),
            parities.len() == b,
            forall|q: int|
                0 <= q < b ==> (#[trigger] parities[q])@ == parity_block(codewords@, layout@, q),
            forall|q: int| 0 <= q < b ==> (#[trigger] parities[q]).len() == layout.ecc_per_block,
        decreases blocks.len() - b,
    {
        proof {
            lemma_block_bounds(layout@, b as int);
            assert(blocks[b as int]@ == data_block(codewords@, layout@, b as int));
            assert(blocks[b as int]@.len() == block_len(layout@, b as int));
        }
        let parity = generate_ecc(blocks[b].as_slice(), layout.ecc_per_block);
        parities.push(parity);
        b = b + 1;
    }
    parities
}

/// The interleaved data codewords.
pub fn interleave_data(codewords: &[u8], layout: &Layout) -> (out: Vec<u8>)
    requires
        is_layout(layout@),
        codewords.len() == data_len(layout@),
    ensures
        out@ == interleaved_data(codewords@, layout@),
{
    let count: usize = layout.g1_blocks + layout.g2_blocks;
    let total: usize = codewords.len();
    proof {
        lemma_block_bounds(layout@, 0);
        assert(layout.g1_dc * count <= 153 * 81) by (nonlinear_arith)
            requires
                layout.g1_dc <= 153,
                count <= 81,
        ;
    }
    let full: usize = layout.g1_dc * count;
    let mut out: Vec<u8> = Vec::new();
    let mut i: usize = 0;
    while i < total
        invariant
            i <= total,
            total == data_len(layout@),
            total == codewords.len(),
            count == blocks_of(layout@),
            full == layout.g1_dc * count,
            is_layout(layout@),
            out.len() == i,
            forall|q: int| 0 <= q < i ==> out@[q] == interleaved_data(codewords@, layout@)[q],
        decreases total - i,
    {
        proof {
            lemma_source(layout@, i as int);
        }
        let block: usize = if i < full {
            i % count
        } else {
            layout.g1_blocks + (i - full)
        };
        let column: usize = if i < full {
            i / count
        } else {
            layout.g1_dc
        };
        proof {
            lemma_block_bounds(layout@, block as int);
        }
        let start: usize = get_block_start(layout, block);
        out.push(codewords[start + column]);
        i = i + 1;
    }
    assert(out@ =~= interleaved_data(codewords@, layout@));
    out
}

/// The interleaved parity codewords.
pub fn interleave_parity(codewords: &[u8], layout: &Layout) -> (out: Vec<u8>)
    requires
        is_layout(layout@),
        codewords.len() == data_len(layout@),
    ensures
        out@ == interleaved_parity(codewords@, layout@),
{
    let parities = block_parities(codewords, layout);
    let count: usize = layout.g1_blocks + layout.g2_blocks;
    proof {
        assert(count * layout.ecc_per_block <= 81 * 30) by (nonlinear_arith)
            requires
                count <= 81,
                layout.ecc_per_block <= 30,
        ;
    }
    let total: usize = count * layout.ecc_per_block;
    let mut out: Vec<u8> = Vec::new();
    let mut i: usize = 0;
    while i < total
        invariant
            i <= total,
            total == blocks_of(layout@) * layout.ecc_per_block,
            count == blocks_of(layout@),
            is_layout(layout@),
            parities.len() == count,
            forall|b: int|
                0 <= b < parities.len() ==> (#[trigger] parities[b])@ == parity_block(
                    codewords@,
                    layout@,
                    b,
                ),
            forall|b: int|
                0 <= b < parities.len() ==> (#[trigger] parities[b]).len() == layout.ecc_per_block,
            out.len() == i,
            forall|q: int| 0 <= q < i ==> out@[q] == interleaved_parity(codewords@, layout@)[q],
        decreases total - i,
    {
        let block: usize = i % count;
        let column: usize = i / count;
        proof {
            lemma_fundamental_div_mod(i as int, count as int);
            assert(column < layout.ecc_per_block) by (nonlinear_arith)
                requires
                    i == count * column + block,
                    i < count * layout.ecc_per_block,
                    0 <= block,
                    count > 0,
            ;
            assert(parities[block as int].len() == layout.ecc_per_block);
        }
        out.push(parities[block][column]);
        i = i + 1;
    }
    assert(out@ =~= interleaved_parity(codewords@, layout@));
    out
}

/// The parity codewords of all blocks, interleaved, as bits.
pub fn generate_ecc_bits(
    data_bits: &[u8],
    version: Version,
    error_correction: ErrorCorrection,
) -> (ecc_bits: Vec<u8>)
    requires
        is_bits(data_bits@),
        data_bits.len() == 8 * data_codewords(version.number(), error_correction),
    ensures
        ecc_bits@ == ecc_stream_bits(version.number(), error_correction, data_bits@),
{
    let layout = get_layout(version, error_correction);
    proof {
        version.lemma_number_range();
        lemma_layout(version.number(), error_correction);
    }
    let codewords = bits_to_bytes(data_bits);
    let parity = interleave_parity(codewords.as_slice(), &layout);
    proof {
        assert(parity.len() <= 81 * 30) by (nonlinear_arith)
            requires
                parity.len() == blocks_of(layout@) * layout.ecc_per_block,
                0 <= blocks_of(layout@) <= 81,
                0 <= layout.ecc_per_block <= 30,
        ;
    }
    bytes_to_bits(parity.as_slice())
}

/// The data codewords of all blocks, interleaved, as bits.
pub fn interleave_data_bits(
    data_bits: &[u8],
    version: Version,
    error_correction: ErrorCorrection,
) -> (stream: Vec<u8>)
    requires
        is_bits(data_bits@),
        data_bits.len() == 8 * data_codewords(version.number(), error_correction),
    ensures
        stream@ == data_stream_bits(version.number(), error_correction, data_bits@),
{
    let layout = get_layout(version, error_correction);
    proof {
        version.lemma_number_range();
        lemma_layout(version.number(), error_correction);
        lemma_block_bounds(layout@, 0);
    }
    let codewords = bits_to_bytes(data_bits);
    let interleaved = interleave_data(codewords.as_slice(), &layout);
    bytes_to_bits(interleaved.as_slice())
}

/// The blocks of a symbol as they are read back from its codewords in placement
/// order: for each block its data codewords, then its parity codewords.
pub fn deinterleave(stream: &[u8], layout: &Layout) -> (blocks: Vec<Vec<u8>>)
    requires
        is_layout(layout@),
        stream.len() == data_len(layout@) + blocks_of(layout@) * layout.ecc_per_block,
    ensures
        blocks.len() == blocks_of(layout@),
        forall|b: int|
            0 <= b < blocks.len() ==> (#[trigger] blocks[b])@ == received_block(
                stream@,
                layout@,
                b,
            ),
{
    let count: usize = layout.g1_blocks + layout.g2_blocks;
    proof {
        lemma_block_bounds(layout@, 0);
        assert(layout.g1_dc * count <= 153 * 81) by (nonlinear_arith)
            requires
                layout.g1_dc <= 153,
                count <= 81,
        ;
        assert(count * layout.ecc_per_block <= 81 * 30) by (nonlinear_arith)
            requires
                count <= 81,
                layout.ecc_per_block <= 30,
        ;
    }
    let full: usize = layout.g1_dc * count;
    let data_total: usize = stream.len() - count * layout.ecc_per_block;
    let mut blocks: Vec<Vec<u8>> = Vec::new();
    let mut b: usize = 0;
    while b < count
        invariant
            b <= count,
            count == blocks_of(layout@),
            full == layout.g1_dc * count,
            data_total == data_len(layout@),
            stream.len() == data_len(layout@) + blocks_of(layout@) * layout.ecc_per_block,
            is_layout(layout@),
            blocks.len() == b,
            forall|q: int|
                0 <= q < b ==> (#[trigger] blocks[q])@ == received_block(stream@, layout@, q),
        decreases count - b,
    {
        let len: usize = get_block_len(layout, b);
        let whole: usize = len + layout.ecc_per_block;
        let mut block: Vec<u8> = Vec::new();
        let mut c: usize = 0;
        proof {
            lemma_block_bounds(layout@, b as int);
        }
        while c < whole
            invariant
                c <= whole,
                b < count,
                whole == len + layout.ecc_per_block,
                len == block_len(layout@, b as int),
                count == blocks_of(layout@),
                full == layout.g1_dc * count,
                data_total == data_len(layout@),
                stream.len() == data_len(layout@) + blocks_of(layout@) * layout.ecc_per_block,
                is_layout(layout@),
                block.len() == c,
                forall|q: int|
                    0 <= q < c ==> block@[q] == received_block(stream@, layout@, b as int)[q],
            decreases whole - c,
        {
            let index: usize = if c < len {
                proof {
                    lemma_data_index(layout@, b as int, c as int);
                    if c < layout.g1_dc {
                        assert(c * count + b <= 153 * 81 + 81) by (nonlinear_arith)
                            requires
                                c <= 153,
                                count <= 81,
                                b <= 81,
                        ;
                    }
                }
                if c < layout.g1_dc {
                    c * count + b
                } else {
                    full + (b - layout.g1_blocks)
                }
            } else {
                proof {
                    lemma_parity_index(layout@, b as int, c - len);
                    assert((c - len) * count <= 30 * 81) by (nonlinear_arith)
                        requires
                            c - len <= 30,
                            count <= 81,
                    ;
                }
                data_total + (c - len) * count + b
            };
            block.push(stream[index]);
            c = c + 1;
        }
        assert(block@ =~= received_block(stream@, layout@, b as int));
        blocks.push(block);
        b = b + 1;
    }
    blocks
}

} // verus!
