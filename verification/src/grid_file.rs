use vstd::prelude::*;

verus! {

/// The stored map format: height and width (`u32`), the cell size as the
/// bits of an `f32`, the cell count (`u64`), all little-endian, then one byte
/// per cell, nonzero for an occupied cell.
pub const HEADER_LEN: usize = 20;

pub open spec fn u32_le_bytes(v: u32) -> Seq<u8> {
    seq![(v & 0xff) as u8, ((v >> 8u32) & 0xff) as u8, ((v >> 16u32) & 0xff) as u8, ((v >> 24u32) & 0xff) as u8]
}

pub open spec fn u32_from_le(b0: u8, b1: u8, b2: u8, b3: u8) -> u32 {
    (b0 as u32) | ((b1 as u32) << 8u32) | ((b2 as u32) << 16u32) | ((b3 as u32) << 24u32)
}

pub open spec fn u64_le_bytes(v: u64) -> Seq<u8> {
    seq![
        (v & 0xff) as u8,
        ((v >> 8u64) & 0xff) as u8,
        ((v >> 16u64) & 0xff) as u8,
        ((v >> 24u64) & 0xff) as u8,
        ((v >> 32u64) & 0xff) as u8,
        ((v >> 40u64) & 0xff) as u8,
        ((v >> 48u64) & 0xff) as u8,
        ((v >> 56u64) & 0xff) as u8,
    ]
}

pub open spec fn u64_from_le(b: Seq<u8>) -> u64 {
    (b[0] as u64) | ((b[1] as u64) << 8u64) | ((b[2] as u64) << 16u64) | ((b[3] as u64) << 24u64)
        | ((b[4] as u64) << 32u64) | ((b[5] as u64) << 40u64) | ((b[6] as u64) << 48u64) | ((
    b[7] as u64) << 56u64)
}

pub open spec fn cell_byte(c: bool) -> u8 {
    if c {
        1
    } else {
        0
    }
}

/// The bytes of a stored map.
pub open spec fn grid_bytes(height: u32, width: u32, dx_bits: u32, cells: Seq<bool>) -> Seq<u8> {
    u32_le_bytes(height) + u32_le_bytes(width) + u32_le_bytes(dx_bits) + u64_le_bytes(
        cells.len() as u64,
    ) + cells.map_values(|c: bool| cell_byte(c))
}

/// The cell count that a stored map's header announces.
pub open spec fn announced_cells(b: Seq<u8>) -> int {
    u64_from_le(b.subrange(12, 20)) as int
}

/// What a stored map holds: `None` when the bytes end before the header or
/// before the announced cells do; bytes after the cells are not read.
pub open spec fn parse_grid(b: Seq<u8>) -> Option<(u32, u32, u32, Seq<bool>)> {
    if b.len() < HEADER_LEN || announced_cells(b) > b.len() - HEADER_LEN {
        None
    } else {
        Some(
            (
                u32_from_le(b[0], b[1], b[2], b[3]),
                u32_from_le(b[4], b[5], b[6], b[7]),
                u32_from_le(b[8], b[9], b[10], b[11]),
                Seq::new(announced_cells(b) as nat, |k: int| b[HEADER_LEN + k] != 0),
            ),
        )
    }
}

/// Why a stored map could not be read.
#[derive(Debug, PartialEq, Eq, Structural)]
pub enum GridFileError {
    /// The bytes end before the header or before the announced cells.
    Truncated,
}

fn push_u32_le(out: &mut Vec<u8>, v: u32)
    ensures
        final(out)@ == old(out)@ + u32_le_bytes(v),
{
    out.push((v & 0xff) as u8);
    out.push(((v >> 8u32) & 0xff) as u8);
    out.push(((v >> 16u32) & 0xff) as u8);
    out.push(((v >> 24u32) & 0xff) as u8);
}

/// The bytes under which a map of `height` by `width` cells of size
/// `dx_bits` (the bits of an `f32`) is stored.
pub fn encode_grid(height: u32, width: u32, dx_bits: u32, data: &[bool]) -> (r: Vec<u8>)
    ensures
        r@ == grid_bytes(height, width, dx_bits, data@),
        r.len() == 20 + data.len(),
        r@[0] + r@[1] * 0x100 + r@[2] * 0x1_0000 + r@[3] * 0x100_0000 == height,
        r@[4] + r@[5] * 0x100 + r@[6] * 0x1_0000 + r@[7] * 0x100_0000 == width,
        r@[8] + r@[9] * 0x100 + r@[10] * 0x1_0000 + r@[11] * 0x100_0000 == dx_bits,
        r@[12] + r@[13] * 0x100 + r@[14] * 0x1_0000 + r@[15] * 0x100_0000 + r@[16] * 0x1_0000_0000
            + r@[17] * 0x100_0000_0000 + r@[18] * 0x1_0000_0000_0000 + r@[19]
            * 0x100_0000_0000_0000 == data.len(),
        forall|k: int|
            0 <= k < data.len() ==> #[trigger] r@[20 + k] == if data@[k] {
                1u8
            } else {
                0u8
            },
{
    let mut out: Vec<u8> = Vec::new();
    push_u32_le(&mut out, height);
    push_u32_le(&mut out, width);
    push_u32_le(&mut out, dx_bits);
    let len = data.len() as u64;
    out.push((len & 0xff) as u8);
    out.push(((len >> 8u64) & 0xff) as u8);
    out.push(((len >> 16u64) & 0xff) as u8);
    out.push(((len >> 24u64) & 0xff) as u8);
    out.push(((len >> 32u64) & 0xff) as u8);
    out.push(((len >> 40u64) & 0xff) as u8);
    out.push(((len >> 48u64) & 0xff) as u8);
    out.push(((len >> 56u64) & 0xff) as u8);
    let ghost head = out@;
    assert(head =~= u32_le_bytes(height) + u32_le_bytes(width) + u32_le_bytes(dx_bits)
        + u64_le_bytes(len));
    let mut k: usize = 0;
    while k < data.len()
        invariant
            k <= data.len(),
            out@ =~= head + data@.take(k as int).map_values(|c: bool| cell_byte(c)),
        decreases data.len() - k,
    {
        let c = data[k];
        out.push(if c { 1u8 } else { 0u8 });
        k += 1;
        assert(data@.take(k as int) =~= data@.take(k - 1) + seq![c]);
    }
    assert(data@.take(data.len() as int) =~= data@);
    proof {
        lemma_grid_bytes_layout(height, width, dx_bits, data@);
    }
    out
}

/// Reads a stored map: its height, width, cell size bits and cells.
pub fn decode_grid(bytes: &[u8]) -> (r: Result<(u32, u32, u32, Vec<bool>), GridFileError>)
    ensures
        match parse_grid(bytes@) {
            Some(t) => r matches Ok(v) && v.0 == t.0 && v.1 == t.1 && v.2 == t.2 && v.3@ == t.3,
            None => r == Err::<(u32, u32, u32, Vec<bool>), GridFileError>(GridFileError::Truncated),
        },
        r is Err <==> bytes.len() < 20 || bytes@[12] + bytes@[13] * 0x100 + bytes@[14] * 0x1_0000
            + bytes@[15] * 0x100_0000 + bytes@[16] * 0x1_0000_0000 + bytes@[17] * 0x100_0000_0000
            + bytes@[18] * 0x1_0000_0000_0000 + bytes@[19] * 0x100_0000_0000_0000 > bytes.len() - 20,
        r matches Ok(v) ==> {
            &&& v.0 as int == bytes@[0] + bytes@[1] * 0x100 + bytes@[2] * 0x1_0000 + bytes@[3]
                * 0x100_0000
            &&& v.1 as int == bytes@[4] + bytes@[5] * 0x100 + bytes@[6] * 0x1_0000 + bytes@[7]
                * 0x100_0000
            &&& v.2 as int == bytes@[8] + bytes@[9] * 0x100 + bytes@[10] * 0x1_0000 + bytes@[11]
                * 0x100_0000
            &&& v.3.len() == bytes@[12] + bytes@[13] * 0x100 + bytes@[14] * 0x1_0000 + bytes@[15]
                * 0x100_0000 + bytes@[16] * 0x1_0000_0000 + bytes@[17] * 0x100_0000_0000
                + bytes@[18] * 0x1_0000_0000_0000 + bytes@[19] * 0x100_0000_0000_0000
            &&& forall|k: int| 0 <= k < v.3.len() ==> #[trigger] v.3@[k] == (bytes@[20 + k] != 0)
        },
{
    proof {
        lemma_parse_grid_layout(bytes@);
    }
    if bytes.len() < HEADER_LEN {
        return Err(GridFileError::Truncated);
    }
    let height = (bytes[0] as u32) | ((bytes[1] as u32) << 8u32) | ((bytes[2] as u32) << 16u32) | ((
    bytes[3] as u32) << 24u32);
    let width = (bytes[4] as u32) | ((bytes[5] as u32) << 8u32) | ((bytes[6] as u32) << 16u32) | ((
    bytes[7] as u32) << 24u32);
    let dx_bits = (bytes[8] as u32) | ((bytes[9] as u32) << 8u32) | ((bytes[10] as u32) << 16u32)
        | ((bytes[11] as u32) << 24u32);
    let count = (bytes[12] as u64) | ((bytes[13] as u64) << 8u64) | ((bytes[14] as u64) << 16u64)
        | ((bytes[15] as u64) << 24u64) | ((bytes[16] as u64) << 32u64) | ((bytes[17] as u64)
        << 40u64) | ((bytes[18] as u64) << 48u64) | ((bytes[19] as u64) << 56u64);
    assert(count == announced_cells(bytes@));
    let avail = (bytes.len() - HEADER_LEN) as u64;
    if count > avail {
        return Err(GridFileError::Truncated);
    }
    let n = count as usize;
    let mut cells: Vec<bool> = Vec::new();
    let mut k: usize = 0;
    while k < n
        invariant
            n == count,
            n <= bytes.len() - HEADER_LEN,
            k <= n,
            cells@ =~= Seq::new(k as nat, |m: int| bytes@[HEADER_LEN + m] != 0),
        decreases n - k,
    {
        cells.push(bytes[HEADER_LEN + k] != 0);
        k += 1;
    }
    Ok((height, width, dx_bits, cells))
}

proof fn lemma_u32_le_roundtrip(v: u32)
    ensures
        u32_from_le(u32_le_bytes(v)[0], u32_le_bytes(v)[1], u32_le_bytes(v)[2], u32_le_bytes(v)[3])
            == v,
{
    assert(((v & 0xff) as u8) as u32 | ((((v >> 8u32) & 0xff) as u8) as u32) << 8u32 | ((((v
        >> 16u32) & 0xff) as u8) as u32) << 16u32 | ((((v >> 24u32) & 0xff) as u8) as u32) << 24u32
        == v) by (bit_vector);
}

proof fn lemma_u64_le_roundtrip(v: u64)
    ensures
        u64_from_le(u64_le_bytes(v)) == v,
{
    let b = u64_le_bytes(v);
    assert(((v & 0xff) as u8) as u64 | ((((v >> 8u64) & 0xff) as u8) as u64) << 8u64 | ((((v
        >> 16u64) & 0xff) as u8) as u64) << 16u64 | ((((v >> 24u64) & 0xff) as u8) as u64) << 24u64
        | ((((v >> 32u64) & 0xff) as u8) as u64) << 32u64 | ((((v >> 40u64) & 0xff) as u8) as u64)
        << 40u64 | ((((v >> 48u64) & 0xff) as u8) as u64) << 48u64 | ((((v >> 56u64) & 0xff) as u8)
        as u64) << 56u64 == v) by (bit_vector);
}

/// Reading back the bytes under which a map was stored gives the map that
/// was stored.
pub proof fn lemma_grid_roundtrip(height: u32, width: u32, dx_bits: u32, cells: Seq<bool>)
    requires
        cells.len() <= u64::MAX,
    ensures
        parse_grid(grid_bytes(height, width, dx_bits, cells)) == Some((height, width, dx_bits, cells)),
{
    let b = grid_bytes(height, width, dx_bits, cells);
    lemma_u32_le_roundtrip(height);
    lemma_u32_le_roundtrip(width);
    lemma_u32_le_roundtrip(dx_bits);
    lemma_u64_le_roundtrip(cells.len() as u64);
    assert(b.subrange(12, 20) =~= u64_le_bytes(cells.len() as u64));
    assert(announced_cells(b) == cells.len());
    assert forall|k: int| 0 <= k < cells.len() implies (b[HEADER_LEN + k] != 0) == cells[k] by {
        assert(b[HEADER_LEN + k] == cell_byte(cells[k]));
    }
    assert(Seq::new(announced_cells(b) as nat, |k: int| b[HEADER_LEN + k] != 0) =~= cells);
}

proof fn lemma_u32_value(b0: u8, b1: u8, b2: u8, b3: u8)
    ensures
        u32_from_le(b0, b1, b2, b3) as int == b0 + b1 * 0x100 + b2 * 0x1_0000 + b3 * 0x100_0000,
{
    assert((b0 as u32) | ((b1 as u32) << 8u32) | ((b2 as u32) << 16u32) | ((b3 as u32) << 24u32)
        == b0 + b1 * 0x100u32 + b2 * 0x1_0000u32 + b3 * 0x100_0000u32) by (bit_vector);
}

proof fn lemma_u64_value(b: Seq<u8>)
    requires
        b.len() == 8,
    ensures
        u64_from_le(b) as int == b[0] + b[1] * 0x100 + b[2] * 0x1_0000 + b[3] * 0x100_0000 + b[4]
            * 0x1_0000_0000 + b[5] * 0x100_0000_0000 + b[6] * 0x1_0000_0000_0000 + b[7]
            * 0x100_0000_0000_0000,
{
    let (b0, b1, b2, b3, b4, b5, b6, b7) = (b[0], b[1], b[2], b[3], b[4], b[5], b[6], b[7]);
    assert((b0 as u64) | ((b1 as u64) << 8u64) | ((b2 as u64) << 16u64) | ((b3 as u64) << 24u64)
        | ((b4 as u64) << 32u64) | ((b5 as u64) << 40u64) | ((b6 as u64) << 48u64) | ((b7 as u64)
        << 56u64) == b0 + b1 * 0x100u64 + b2 * 0x1_0000u64 + b3 * 0x100_0000u64 + b4
        * 0x1_0000_0000u64 + b5 * 0x100_0000_0000u64 + b6 * 0x1_0000_0000_0000u64 + b7
        * 0x100_0000_0000_0000u64) by (bit_vector);
}

/// What a stored map reads as: height, width and cell size bits are the
/// little-endian numbers in bytes 0-3, 4-7 and 8-11, the cell count the one in
/// bytes 12-19, and cell `k` is occupied exactly when byte `20 + k` is
/// nonzero; reading fails exactly when the bytes are too few for the header
/// or for the announced cells.
pub proof fn lemma_parse_grid_layout(b: Seq<u8>)
    ensures
        b.len() >= 20 ==> announced_cells(b) == b[12] + b[13] * 0x100 + b[14] * 0x1_0000 + b[15]
            * 0x100_0000 + b[16] * 0x1_0000_0000 + b[17] * 0x100_0000_0000 + b[18]
            * 0x1_0000_0000_0000 + b[19] * 0x100_0000_0000_0000,
        parse_grid(b) is None <==> b.len() < 20 || announced_cells(b) > b.len() - 20,
        parse_grid(b) matches Some(t) ==> {
            &&& t.0 as int == b[0] + b[1] * 0x100 + b[2] * 0x1_0000 + b[3] * 0x100_0000
            &&& t.1 as int == b[4] + b[5] * 0x100 + b[6] * 0x1_0000 + b[7] * 0x100_0000
            &&& t.2 as int == b[8] + b[9] * 0x100 + b[10] * 0x1_0000 + b[11] * 0x100_0000
            &&& t.3.len() == announced_cells(b)
            &&& forall|k: int| 0 <= k < t.3.len() ==> #[trigger] t.3[k] == (b[20 + k] != 0)
        },
{
    if b.len() >= 20 {
        lemma_u64_value(b.subrange(12, 20));
        lemma_u32_value(b[0], b[1], b[2], b[3]);
        lemma_u32_value(b[4], b[5], b[6], b[7]);
        lemma_u32_value(b[8], b[9], b[10], b[11]);
    }
}

/// The bytes of a stored map: height, width and cell size bits as
/// little-endian 32-bit numbers, the cell count as a little-endian 64-bit
/// number, then byte `20 + k` is 1 when cell `k` is occupied and 0 when it
/// is free.
pub proof fn lemma_grid_bytes_layout(height: u32, width: u32, dx_bits: u32, cells: Seq<bool>)
    requires
        cells.len() <= u64::MAX,
    ensures
        grid_bytes(height, width, dx_bits, cells).len() == 20 + cells.len(),
        ({
            let b = grid_bytes(height, width, dx_bits, cells);
            &&& b[0] + b[1] * 0x100 + b[2] * 0x1_0000 + b[3] * 0x100_0000 == height
            &&& b[4] + b[5] * 0x100 + b[6] * 0x1_0000 + b[7] * 0x100_0000 == width
            &&& b[8] + b[9] * 0x100 + b[10] * 0x1_0000 + b[11] * 0x100_0000 == dx_bits
            &&& b[12] + b[13] * 0x100 + b[14] * 0x1_0000 + b[15] * 0x100_0000 + b[16]
                * 0x1_0000_0000 + b[17] * 0x100_0000_0000 + b[18] * 0x1_0000_0000_0000 + b[19]
                * 0x100_0000_0000_0000 == cells.len()
            &&& forall|k: int|
                0 <= k < cells.len() ==> #[trigger] b[20 + k] == if cells[k] {
                    1u8
                } else {
                    0u8
                }
        }),
{
    let b = grid_bytes(height, width, dx_bits, cells);
    lemma_u32_le_roundtrip(height);
    lemma_u32_le_roundtrip(width);
    lemma_u32_le_roundtrip(dx_bits);
    lemma_u32_value(b[0], b[1], b[2], b[3]);
    lemma_u32_value(b[4], b[5], b[6], b[7]);
    lemma_u32_value(b[8], b[9], b[10], b[11]);
    lemma_u64_le_roundtrip(cells.len() as u64);
    assert(b.subrange(12, 20) =~= u64_le_bytes(cells.len() as u64));
    lemma_u64_value(b.subrange(12, 20));
    assert forall|k: int| 0 <= k < cells.len() implies #[trigger] b[20 + k] == if cells[k] {
        1u8
    } else {
        0u8
    } by {
        assert(b[20 + k] == cell_byte(cells[k]));
    }
}

} // verus!
