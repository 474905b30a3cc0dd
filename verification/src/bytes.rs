//! Big-endian integers on byte cursors.
//!
//! A reader is a byte slice together with a position; a writer is a mutable byte
//! slice together with a position. Writes that do not fit are cut short at the end
//! of the slice, and reads that run past the end fail with `UnexpectedEof`.
use crate::ioerror::eof_error;
use vstd::prelude::*;

verus! {

/// `256` to the power `width`.
pub open spec fn pow256(width: nat) -> nat
    decreases width,
{
    if width == 0 {
        1
    } else {
        256 * pow256((width - 1) as nat)
    }
}

/// The number that a byte string denotes, most significant byte first.
pub open spec fn be_value(s: Seq<u8>) -> nat
    decreases s.len(),
{
    if s.len() == 0 {
        0
    } else {
        be_value(s.drop_last()) * 256 + s.last() as nat
    }
}

/// The `width` low-order bytes of `n`, most significant byte first.
pub open spec fn be_bytes(n: nat, width: nat) -> Seq<u8>
    decreases width,
{
    if width == 0 {
        seq![]
    } else {
        be_bytes(n / 256, (width - 1) as nat).push((n % 256) as u8)
    }
}

/// How many of `n` bytes fit into a slice of length `len` from position `pos` on; none
/// from a position past the end.
pub open spec fn fit(len: int, pos: int, n: int) -> int {
    if pos > len {
        0
    } else if n <= len - pos {
        n
    } else {
        len - pos
    }
}

/// The slice `out` after `bytes` were written at `pos`, cut short at its end; a write
/// from past the end changes nothing.
pub open spec fn put_bytes(out: Seq<u8>, pos: int, bytes: Seq<u8>) -> Seq<u8> {
    if pos > out.len() {
        out
    } else {
        let k = fit(out.len() as int, pos, bytes.len() as int);
        out.take(pos) + bytes.take(k) + out.skip(pos + k)
    }
}

pub proof fn lemma_be_bytes_len(n: nat, width: nat)
    ensures
        be_bytes(n, width).len() == width,
    decreases width,
{
    if width > 0 {
        lemma_be_bytes_len(n / 256, (width - 1) as nat);
    }
}

/// A byte string of length `w` denotes a number below `256^w`.
pub proof fn lemma_be_value_bound(s: Seq<u8>)
    ensures
        be_value(s) < pow256(s.len()),
    decreases s.len(),
{
    if s.len() > 0 {
        let t = s.drop_last();
        lemma_be_value_bound(t);
        let v = be_value(t);
        let p = pow256(t.len());
        let b = s.last() as nat;
        assert(v * 256 + b < 256 * p) by (nonlinear_arith)
            requires
                v < p,
                b < 256,
        ;
    }
}

/// Writing a number below `256^w` in `w` bytes and reading it back gives the number.
pub proof fn lemma_be_value_of_bytes(n: nat, width: nat)
    requires
        n < pow256(width),
    ensures
        be_value(be_bytes(n, width)) == n,
        be_bytes(n, width).len() == width,
    decreases width,
{
    lemma_be_bytes_len(n, width);
    if width > 0 {
        let w1 = (width - 1) as nat;
        let p = pow256(w1);
        assert(n / 256 < p) by (nonlinear_arith)
            requires
                n < 256 * p,
        ;
        lemma_be_value_of_bytes(n / 256, w1);
        let s = be_bytes(n, width);
        assert(s.drop_last() =~= be_bytes(n / 256, w1));
        assert((n / 256) * 256 + n % 256 == n) by (nonlinear_arith);
    }
}

/// Reading a byte string as a number and writing that number back gives the string.
pub proof fn lemma_bytes_of_be_value(s: Seq<u8>)
    ensures
        be_bytes(be_value(s), s.len()) == s,
    decreases s.len(),
{
    if s.len() > 0 {
        let t = s.drop_last();
        lemma_bytes_of_be_value(t);
        let v = be_value(t);
        let b = s.last() as nat;
        assert((v * 256 + b) / 256 == v && (v * 256 + b) % 256 == b) by (nonlinear_arith)
            requires
                b < 256,
        ;
        assert(be_bytes(be_value(s), s.len()) =~= t.push(s.last()));
        assert(t.push(s.last()) =~= s);
    }
}

proof fn lemma_pow256_values()
    ensures
        pow256(1) == 0x100,
        pow256(2) == 0x1_0000,
        pow256(4) == 0x1_0000_0000,
        pow256(8) == 0x1_0000_0000_0000_0000,
{
    reveal_with_fuel(pow256, 9);
}

/// Writes as many of `bytes` as fit at `pos`, as `Write::write` on a slice cursor does,
/// and returns how many were written.
pub(crate) fn write_slice(out: &mut [u8], pos: &mut usize, bytes: &[u8]) -> (written: usize)
    ensures
        written == fit(old(out)@.len() as int, *old(pos) as int, bytes@.len() as int),
        *final(pos) == *old(pos) + written,
        final(out)@ == put_bytes(old(out)@, *old(pos) as int, bytes@),
{
    if *pos >= out.len() {
        assert(out@ =~= put_bytes(old(out)@, *old(pos) as int, bytes@));
        return 0;
    }
    let space = out.len() - *pos;
    let k = if bytes.len() <= space {
        bytes.len()
    } else {
        space
    };
    let start = *pos;
    let end: usize = start + k;
    let mut i: usize = 0;
    while i < k
        invariant
            end == start + k,
            k == fit(old(out)@.len() as int, start as int, bytes@.len() as int),
            start == *old(pos),
            start + k <= out@.len(),
            out@.len() == old(out)@.len(),
            0 <= i <= k,
            forall|j: int| 0 <= j < start ==> out@[j] == old(out)@[j],
            forall|j: int| start <= j < start + i ==> out@[j] == bytes@[j - start],
            forall|j: int| start + i <= j < out@.len() ==> out@[j] == old(out)@[j],
        decreases k - i,
    {
        out[start + i] = bytes[i];
        i = i + 1;
    }
    *pos = start + k;
    assert(out@ =~= put_bytes(old(out)@, start as int, bytes@));
    k
}

/// Writing `a` and then `b` at `p` is writing `a + b` at `p`.
pub proof fn lemma_put_bytes_concat(o: Seq<u8>, p: int, a: Seq<u8>, b: Seq<u8>)
    requires
        0 <= p,
    ensures
        put_bytes(put_bytes(o, p, a), p + fit(o.len() as int, p, a.len() as int), b) == put_bytes(
            o,
            p,
            a + b,
        ),
        fit(o.len() as int, p, a.len() as int) + fit(
            o.len() as int,
            p + fit(o.len() as int, p, a.len() as int),
            b.len() as int,
        ) == fit(o.len() as int, p, (a + b).len() as int),
{
    if p <= o.len() {
        let l = o.len() as int;
        let k1 = fit(l, p, a.len() as int);
        let o1 = put_bytes(o, p, a);
        assert(o1.len() == l);
        let lhs = put_bytes(o1, p + k1, b);
        let rhs = put_bytes(o, p, a + b);
        assert(lhs =~= rhs);
    }
}

proof fn lemma_u16_bytes(num: u16)
    ensures
        be_bytes(num as nat, 2) == seq![((num >> 8) & 0xFF) as u8, (num & 0xFF) as u8],
{
    reveal_with_fuel(be_bytes, 3);
    assert(((num >> 8) & 0xFF) == (num / 256) % 256 && (num & 0xFF) == num % 256) by (bit_vector);
    assert(be_bytes(num as nat, 2) =~= seq![((num >> 8) & 0xFF) as u8, (num & 0xFF) as u8]);
}

proof fn lemma_u32_bytes(num: u32)
    ensures
        be_bytes(num as nat, 4) == seq![
            ((num >> 24) & 0xFF) as u8,
            ((num >> 16) & 0xFF) as u8,
            ((num >> 8) & 0xFF) as u8,
            (num & 0xFF) as u8,
        ],
{
    reveal_with_fuel(be_bytes, 5);
    assert(((num >> 24) & 0xFF) == (num / 256 / 256 / 256) % 256 && ((num >> 16) & 0xFF) == (num
        / 256 / 256) % 256 && ((num >> 8) & 0xFF) == (num / 256) % 256 && (num & 0xFF) == num
        % 256) by (bit_vector);
    assert(be_bytes(num as nat, 4) =~= seq![
        ((num >> 24) & 0xFF) as u8,
        ((num >> 16) & 0xFF) as u8,
        ((num >> 8) & 0xFF) as u8,
        (num & 0xFF) as u8,
    ]);
}

proof fn lemma_u64_bytes(num: u64)
    ensures
        be_bytes(num as nat, 8) == seq![
            ((num >> 56) & 0xFF) as u8,
            ((num >> 48) & 0xFF) as u8,
            ((num >> 40) & 0xFF) as u8,
            ((num >> 32) & 0xFF) as u8,
            ((num >> 24) & 0xFF) as u8,
            ((num >> 16) & 0xFF) as u8,
            ((num >> 8) & 0xFF) as u8,
            (num & 0xFF) as u8,
        ],
{
    reveal_with_fuel(be_bytes, 9);
    assert(((num >> 56) & 0xFF) == (num / 256 / 256 / 256 / 256 / 256 / 256 / 256) % 256 && ((num
        >> 48) & 0xFF) == (num / 256 / 256 / 256 / 256 / 256 / 256) % 256 && ((num >> 40) & 0xFF)
        == (num / 256 / 256 / 256 / 256 / 256) % 256 && ((num >> 32) & 0xFF) == (num / 256 / 256
        / 256 / 256) % 256) by (bit_vector);
    assert(((num >> 24) & 0xFF) == (num / 256 / 256 / 256) % 256 && ((num >> 16) & 0xFF) == (num
        / 256 / 256) % 256 && ((num >> 8) & 0xFF) == (num / 256) % 256 && (num & 0xFF) == num
        % 256) by (bit_vector);
    assert(be_bytes(num as nat, 8) =~= seq![
        ((num >> 56) & 0xFF) as u8,
        ((num >> 48) & 0xFF) as u8,
        ((num >> 40) & 0xFF) as u8,
        ((num >> 32) & 0xFF) as u8,
        ((num >> 24) & 0xFF) as u8,
        ((num >> 16) & 0xFF) as u8,
        ((num >> 8) & 0xFF) as u8,
        (num & 0xFF) as u8,
    ]);
}

/// Writes one byte at `pos` if there is room; returns how many bytes were written.
pub fn write_u8(out: &mut [u8], pos: &mut usize, num: u8) -> (written: usize)
    ensures
        written == fit(old(out)@.len() as int, *old(pos) as int, 1),
        *final(pos) == *old(pos) + written,
        final(out)@ == put_bytes(old(out)@, *old(pos) as int, seq![num]),
{
    let buf = [num];
    assert(buf@ =~= seq![num]);
    write_slice(out, pos, &buf)
}

/// Writes `num` in two bytes, most significant first, as far as they fit.
pub fn _write_u16(out: &mut [u8], pos: &mut usize, num: u16) -> (written: usize)
    ensures
        written == fit(old(out)@.len() as int, *old(pos) as int, 2),
        *final(pos) == *old(pos) + written,
        final(out)@ == put_bytes(old(out)@, *old(pos) as int, be_bytes(num as nat, 2)),
{
    let buf = [((num >> 8) & 0xFF) as u8, (num & 0xFF) as u8];
    proof {
        lemma_u16_bytes(num);
        assert(buf@ =~= be_bytes(num as nat, 2));
    }
    write_slice(out, pos, &buf)
}

/// Writes `num` in four bytes, most significant first, as far as they fit.
pub fn write_u32(out: &mut [u8], pos: &mut usize, num: u32) -> (written: usize)
    ensures
        written == fit(old(out)@.len() as int, *old(pos) as int, 4),
        *final(pos) == *old(pos) + written,
        final(out)@ == put_bytes(old(out)@, *old(pos) as int, be_bytes(num as nat, 4)),
{
    let buf = [
        ((num >> 24) & 0xFF) as u8,
        ((num >> 16) & 0xFF) as u8,
        ((num >> 8) & 0xFF) as u8,
        (num & 0xFF) as u8,
    ];
    proof {
        lemma_u32_bytes(num);
        assert(buf@ =~= be_bytes(num as nat, 4));
    }
    write_slice(out, pos, &buf)
}

/// Writes `num` in eight bytes, most significant first, as far as they fit.
pub fn _write_u64(out: &mut [u8], pos: &mut usize, num: u64) -> (written: usize)
    ensures
        written == fit(old(out)@.len() as int, *old(pos) as int, 8),
        *final(pos) == *old(pos) + written,
        final(out)@ == put_bytes(old(out)@, *old(pos) as int, be_bytes(num as nat, 8)),
{
    let buf = [
        ((num >> 56) & 0xFF) as u8,
        ((num >> 48) & 0xFF) as u8,
        ((num >> 40) & 0xFF) as u8,
        ((num >> 32) & 0xFF) as u8,
        ((num >> 24) & 0xFF) as u8,
        ((num >> 16) & 0xFF) as u8,
        ((num >> 8) & 0xFF) as u8,
        (num & 0xFF) as u8,
    ];
    proof {
        lemma_u64_bytes(num);
        assert(buf@ =~= be_bytes(num as nat, 8));
    }
    write_slice(out, pos, &buf)
}

/// Reads one byte at `pos`. Past the end it fails, as `Read::read_exact` does, and
/// leaves the cursor at the end.
pub fn read_u8(data: &[u8], pos: &mut usize) -> (res: std::io::Result<u8>)
    ensures
        *old(pos) < data@.len() ==> (res is Ok && res->Ok_0 == data@[*old(pos) as int]
            && *final(pos) == *old(pos) + 1),
        *old(pos) >= data@.len() ==> res is Err && *final(pos) == data@.len(),
{
    if *pos >= data.len() || data.len() - *pos < 1 {
        *pos = data.len();
        return Err(eof_error());
    }
    let byte = data[*pos];
    *pos = *pos + 1;
    Ok(byte)
}

/// Reads two bytes at `pos` as a number, most significant first.
pub fn _read_u16(data: &[u8], pos: &mut usize) -> (res: std::io::Result<u16>)
    ensures
        *old(pos) + 2 <= data@.len() ==> (res is Ok && res->Ok_0 == be_value(
            data@.subrange(*old(pos) as int, *old(pos) + 2),
        ) && *final(pos) == *old(pos) + 2),
        *old(pos) + 2 > data@.len() ==> res is Err && *final(pos) == data@.len(),
{
    if *pos >= data.len() || data.len() - *pos < 2 {
        *pos = data.len();
        return Err(eof_error());
    }
    let p = *pos;
    let bytes = [data[p], data[p + 1]];
    let ghost s = data@.subrange(p as int, p + 2);
    assert(bytes@ =~= s);
    let mut result: u16 = 0;
    let mut i: usize = 0;
    while i < 2
        invariant
            0 <= i <= 2,
            bytes@ == s,
            result as nat == be_value(s.take(i as int)),
        decreases 2 - i,
    {
        proof {
            lemma_be_value_bound(s.take(i as int));
            lemma_pow256_values();
            reveal_with_fuel(pow256, 3);
            assert(s.take(i + 1).drop_last() =~= s.take(i as int));
        }
        let r = result;
        assert(r < 0x100 ==> r << 8 == r * 256) by (bit_vector);
        result = result << 8;
        result = result + bytes[i] as u16;
        i = i + 1;
    }
    assert(s.take(2) =~= s);
    *pos = p + 2;
    Ok(result)
}

/// Reads four bytes at `pos` as a number, most significant first.
pub fn read_u32(data: &[u8], pos: &mut usize) -> (res: std::io::Result<u32>)
    ensures
        *old(pos) + 4 <= data@.len() ==> (res is Ok && res->Ok_0 == be_value(
            data@.subrange(*old(pos) as int, *old(pos) + 4),
        ) && *final(pos) == *old(pos) + 4),
        *old(pos) + 4 > data@.len() ==> res is Err && *final(pos) == data@.len(),
{
    if *pos >= data.len() || data.len() - *pos < 4 {
        *pos = data.len();
        return Err(eof_error());
    }
    let p = *pos;
    let bytes = [data[p], data[p + 1], data[p + 2], data[p + 3]];
    let ghost s = data@.subrange(p as int, p + 4);
    assert(bytes@ =~= s);
    let mut result: u32 = 0;
    let mut i: usize = 0;
    while i < 4
        invariant
            0 <= i <= 4,
            bytes@ == s,
            result as nat == be_value(s.take(i as int)),
        decreases 4 - i,
    {
        proof {
            lemma_be_value_bound(s.take(i as int));
            reveal_with_fuel(pow256, 5);
            assert(s.take(i + 1).drop_last() =~= s.take(i as int));
        }
        let r = result;
        assert(r < 0x100_0000 ==> r << 8 == r * 256) by (bit_vector);
        result = result << 8;
        result = result + bytes[i] as u32;
        i = i + 1;
    }
    assert(s.take(4) =~= s);
    *pos = p + 4;
    Ok(result)
}

/// Reads eight bytes at `pos` as a number, most significant first.
pub fn _read_u64(data: &[u8], pos: &mut usize) -> (res: std::io::Result<u64>)
    ensures
        *old(pos) + 8 <= data@.len() ==> (res is Ok && res->Ok_0 == be_value(
            data@.subrange(*old(pos) as int, *old(pos) + 8),
        ) && *final(pos) == *old(pos) + 8),
        *old(pos) + 8 > data@.len() ==> res is Err && *final(pos) == data@.len(),
{
    if *pos >= data.len() || data.len() - *pos < 8 {
        *pos = data.len();
        return Err(eof_error());
    }
    let p = *pos;
    let bytes = [
        data[p],
        data[p + 1],
        data[p + 2],
        data[p + 3],
        data[p + 4],
        data[p + 5],
        data[p + 6],
        data[p + 7],
    ];
    let ghost s = data@.subrange(p as int, p + 8);
    assert(bytes@ =~= s);
    let mut result: u64 = 0;
    let mut i: usize = 0;
    while i < 8
        invariant
            0 <= i <= 8,
            bytes@ == s,
            result as nat == be_value(s.take(i as int)),
        decreases 8 - i,
    {
        proof {
            lemma_be_value_bound(s.take(i as int));
            reveal_with_fuel(pow256, 9);
            assert(s.take(i + 1).drop_last() =~= s.take(i as int));
        }
        let r = result;
        assert(r < 0x100_0000_0000_0000 ==> r << 8 == r * 256) by (bit_vector);
        result = result << 8;
        result = result + bytes[i] as u64;
        i = i + 1;
    }
    assert(s.take(8) =~= s);
    *pos = p + 8;
    Ok(result)
}

/// A number written in `width` bytes where they fit is read back from the same place.
pub proof fn lemma_write_then_read(out: Seq<u8>, pos: int, n: nat, width: nat)
    requires
        0 <= pos,
        pos + width <= out.len(),
        n < pow256(width),
    ensures
        put_bytes(out, pos, be_bytes(n, width)).subrange(pos, pos + width) == be_bytes(n, width),
        be_value(put_bytes(out, pos, be_bytes(n, width)).subrange(pos, pos + width)) == n,
{
    lemma_be_value_of_bytes(n, width);
    let w = put_bytes(out, pos, be_bytes(n, width));
    assert(w.subrange(pos, pos + width) =~= be_bytes(n, width));
}

} // verus!
