use vstd::prelude::*;

verus! {

/// Whether every entry is the bit 0 or the bit 1.
pub open spec fn is_bits(bits: Seq<u8>) -> bool {
    forall|i: int| 0 <= i < bits.len() ==> (#[trigger] bits[i]) <= 1
}

/// The lowest `width` binary digits of `value`, the most significant first.
pub open spec fn bits_of(value: int, width: nat) -> Seq<u8>
    decreases width,
{
    if width == 0 {
        Seq::empty()
    } else {
        bits_of(value / 2, (width - 1) as nat).push((value % 2) as u8)
    }
}

/// The number whose binary digits, the most significant first, are `bits`.
pub open spec fn value_of(bits: Seq<u8>) -> int
    decreases bits.len(),
{
    if bits.len() == 0 {
        0
    } else {
        2 * value_of(bits.drop_last()) + bits.last()
    }
}

/// Two to the power `width`.
pub open spec fn two_to(width: nat) -> int
    decreases width,
{
    if width == 0 {
        1
    } else {
        2 * two_to((width - 1) as nat)
    }
}

/// The bits of the bytes, eight for each, the most significant first.
pub open spec fn bits_of_bytes(bytes: Seq<u8>) -> Seq<u8>
    decreases bytes.len(),
{
    if bytes.len() == 0 {
        Seq::empty()
    } else {
        bits_of_bytes(bytes.drop_last()) + bits_of(bytes.last() as int, 8)
    }
}

/// The bytes that groups of eight bits spell; bits left over at the end are dropped.
pub open spec fn bytes_of_bits(bits: Seq<u8>) -> Seq<u8> {
    Seq::new((bits.len() / 8) as nat, |i: int| value_of(bits.subrange(8 * i, 8 * i + 8)) as u8)
}

/// A power of two is at least one.
pub proof fn lemma_two_to_positive(width: nat)
    ensures
        two_to(width) >= 1,
    decreases width,
{
    if width > 0 {
        lemma_two_to_positive((width - 1) as nat);
    }
}

/// The powers of two that the widths of the fields of a symbol call for.
pub proof fn lemma_two_to_values()
    ensures
        two_to(0) == 1,
        two_to(1) == 2,
        two_to(2) == 4,
        two_to(3) == 8,
        two_to(4) == 16,
        two_to(5) == 32,
        two_to(6) == 64,
        two_to(7) == 128,
        two_to(8) == 256,
        two_to(9) == 512,
        two_to(10) == 1024,
        two_to(11) == 2048,
        two_to(12) == 4096,
        two_to(13) == 8192,
        two_to(14) == 16384,
        two_to(15) == 32768,
        two_to(16) == 65536,
{
    reveal_with_fuel(two_to, 17);
}

/// The digits of an integer are bits, as many as asked for.
pub proof fn lemma_bits_of(value: int, width: nat)
    ensures
        bits_of(value, width).len() == width,
        is_bits(bits_of(value, width)),
    decreases width,
{
    if width > 0 {
        lemma_bits_of(value / 2, (width - 1) as nat);
    }
}

/// Reading back the digits of a number that fits gives the number.
pub proof fn lemma_value_of_bits_of(value: int, width: nat)
    requires
        0 <= value < two_to(width),
    ensures
        value_of(bits_of(value, width)) == value,
    decreases width,
{
    if width > 0 {
        let head = bits_of(value / 2, (width - 1) as nat);
        assert(bits_of(value, width).drop_last() =~= head);
        lemma_value_of_bits_of(value / 2, (width - 1) as nat);
    }
}

/// A sequence of bits spells a number below two to the power of its length, and
/// writing that number out gives the bits back.
pub proof fn lemma_bits_of_value_of(bits: Seq<u8>)
    requires
        is_bits(bits),
    ensures
        0 <= value_of(bits) < two_to(bits.len()),
        bits_of(value_of(bits), bits.len()) == bits,
    decreases bits.len(),
{
    if bits.len() > 0 {
        let head = bits.drop_last();
        assert(is_bits(head)) by {
            assert forall|i: int| 0 <= i < head.len() implies (#[trigger] head[i]) <= 1 by {
                assert(head[i] == bits[i]);
            }
        }
        lemma_bits_of_value_of(head);
        assert(bits.last() == bits[bits.len() - 1]);
        assert(bits.last() <= 1);
        let v = value_of(bits);
        assert(v / 2 == value_of(head));
        assert(v % 2 == bits.last());
        assert(bits_of(v, bits.len()) =~= bits);
    } else {
        assert(bits_of(0, 0) =~= bits);
    }
}

/// Two sequences of bits, one after the other, are a sequence of bits.
pub proof fn lemma_is_bits_concat(a: Seq<u8>, b: Seq<u8>)
    requires
        is_bits(a),
        is_bits(b),
    ensures
        is_bits(a + b),
{
    assert forall|i: int| 0 <= i < (a + b).len() implies (#[trigger] (a + b)[i]) <= 1 by {
        if i < a.len() {
            assert((a + b)[i] == a[i]);
        } else {
            assert((a + b)[i] == b[i - a.len()]);
        }
    }
}

/// The bits of a sequence of bytes are bits, eight for each byte.
pub proof fn lemma_bits_of_bytes(bytes: Seq<u8>)
    ensures
        bits_of_bytes(bytes).len() == 8 * bytes.len(),
        is_bits(bits_of_bytes(bytes)),
    decreases bytes.len(),
{
    if bytes.len() > 0 {
        lemma_bits_of_bytes(bytes.drop_last());
        lemma_bits_of(bytes.last() as int, 8);
        lemma_is_bits_concat(bits_of_bytes(bytes.drop_last()), bits_of(bytes.last() as int, 8));
    }
}

/// The bits of byte `i` stand at places `8 * i` to `8 * i + 7`.
pub proof fn lemma_bits_of_bytes_slice(bytes: Seq<u8>, i: int)
    requires
        0 <= i < bytes.len(),
    ensures
        bits_of_bytes(bytes).len() == 8 * bytes.len(),
        bits_of_bytes(bytes).subrange(8 * i, 8 * i + 8) == bits_of(bytes[i] as int, 8),
    decreases bytes.len(),
{
    lemma_bits_of_bytes(bytes);
    let head = bytes.drop_last();
    lemma_bits_of_bytes(head);
    lemma_bits_of(bytes.last() as int, 8);
    if i == bytes.len() - 1 {
        assert(bits_of_bytes(bytes).subrange(8 * i, 8 * i + 8) =~= bits_of(bytes[i] as int, 8));
    } else {
        lemma_bits_of_bytes_slice(head, i);
        assert(bits_of_bytes(bytes).subrange(8 * i, 8 * i + 8) =~= bits_of_bytes(head).subrange(
            8 * i,
            8 * i + 8,
        ));
    }
}

/// Packing the bits of bytes gives the bytes back.
pub proof fn lemma_bytes_of_bits_of_bytes(bytes: Seq<u8>)
    ensures
        bytes_of_bits(bits_of_bytes(bytes)) == bytes,
{
    lemma_bits_of_bytes(bytes);
    let packed = bytes_of_bits(bits_of_bytes(bytes));
    assert forall|i: int| 0 <= i < bytes.len() implies packed[i] == bytes[i] by {
        lemma_bits_of_bytes_slice(bytes, i);
        lemma_two_to_values();
        lemma_value_of_bits_of(bytes[i] as int, 8);
    }
    assert(packed =~= bytes);
}

/// Appends the lowest `width` binary digits of `value`, the most significant first.
pub fn append_bits(bits: &mut Vec<u8>, value: usize, width: usize)
    requires
        old(bits).len() + width <= usize::MAX,
    ensures
        final(bits)@ == old(bits)@ + bits_of(value as int, width as nat),
        final(bits).len() == old(bits).len() + width,
{
    let start: usize = bits.len();
    let mut i: usize = 0;
    while i < width
        invariant
            i <= width,
            start + width <= usize::MAX,
            bits.len() == start + i,
            bits@.subrange(0, start as int) == old(bits)@,
        decreases width - i,
    {
        bits.push(0);
        i = i + 1;
        assert(bits@.subrange(0, start as int) =~= old(bits)@);
    }
    let mut rest: usize = value;
    let mut left: usize = width;
    assert(bits_of(value as int, width as nat) =~= bits_of(rest as int, left as nat)
        + bits@.subrange(start + left, start + width));
    while left > 0
        invariant
            left <= width,
            bits.len() == start + width,
            bits@.subrange(0, start as int) == old(bits)@,
            bits_of(value as int, width as nat) == bits_of(rest as int, left as nat) + bits@.subrange(
                start + left,
                start + width,
            ),
        decreases left,
    {
        let ghost before = bits@;
        left = left - 1;
        bits[start + left] = (rest % 2) as u8;
        proof {
            assert(bits@.subrange(0, start as int) =~= before.subrange(0, start as int));
            let head = bits_of(rest as int / 2, left as nat);
            assert(bits_of(rest as int, (left + 1) as nat) == head.push((rest % 2) as u8));
            assert(bits@.subrange(start + left, start + width) =~= seq![(rest % 2) as u8]
                + before.subrange(start + left + 1, start + width));
            assert(head.push((rest % 2) as u8) + before.subrange(start + left + 1, start + width)
                =~= head + bits@.subrange(start + left, start + width));
        }
        rest = rest / 2;
    }
    assert(bits@ =~= old(bits)@ + bits_of(value as int, width as nat)) by {
        assert(bits_of(rest as int, 0) =~= Seq::<u8>::empty());
        assert(bits@ =~= bits@.subrange(0, start as int) + bits@.subrange(
            start as int,
            start + width,
        ));
    }
}

/// The number that the bits spell, the most significant first. Entries other than
/// 0 and 1 count as the numbers they are.
pub fn bits_to_usize(bits: &[u8]) -> (value: usize)
    requires
        bits.len() <= 32,
        is_bits(bits@),
    ensures
        value == value_of(bits@),
        value < two_to(bits@.len()),
{
    let mut value: usize = 0;
    let mut i: usize = 0;
    proof {
        lemma_two_to_positive(0);
    }
    while i < bits.len()
        invariant
            i <= bits.len() <= 32,
            is_bits(bits@),
            value == value_of(bits@.take(i as int)),
            value < two_to(i as nat),
            two_to(i as nat) <= 0x1_0000_0000,
        decreases bits.len() - i,
    {
        proof {
            assert(bits@.take(i + 1).drop_last() =~= bits@.take(i as int));
            assert(bits@[i as int] <= 1);
            lemma_two_to_bound((i + 1) as nat);
        }
        value = 2 * value + bits[i] as usize;
        i = i + 1;
    }
    assert(bits@.take(i as int) =~= bits@);
    value
}

/// A power of two grows with its exponent.
pub proof fn lemma_two_to_monotone(a: nat, b: nat)
    requires
        a <= b,
    ensures
        two_to(a) <= two_to(b),
    decreases b - a,
{
    if a < b {
        lemma_two_to_monotone(a, (b - 1) as nat);
        lemma_two_to_positive((b - 1) as nat);
    }
}

/// The number that up to eight bits spell, the most significant bit first.
pub fn bits_to_u8(bits: &[u8]) -> (value: u8)
    requires
        bits.len() <= 8,
        is_bits(bits@),
    ensures
        value == value_of(bits@),
{
    proof {
        lemma_two_to_values();
        lemma_two_to_monotone(bits@.len(), 8);
    }
    let value: usize = bits_to_usize(bits);
    value as u8
}

/// The number that up to sixteen bits spell, the most significant bit first.
pub fn bits_to_u16(bits: &[u8]) -> (value: u16)
    requires
        bits.len() <= 16,
        is_bits(bits@),
    ensures
        value == value_of(bits@),
{
    proof {
        lemma_two_to_values();
        lemma_two_to_monotone(bits@.len(), 16);
    }
    let value: usize = bits_to_usize(bits);
    value as u16
}

/// A power of two with an exponent of at most 32 is at most 2^32.
proof fn lemma_two_to_bound(width: nat)
    requires
        width <= 32,
    ensures
        two_to(width) <= 0x1_0000_0000,
    decreases 32 - width,
{
    if width < 32 {
        lemma_two_to_bound(width + 1);
    } else {
        lemma_two_to_values();
        lemma_two_to_sum(16, 16);
    }
}

/// Powers of two multiply by adding their exponents.
pub proof fn lemma_two_to_sum(a: nat, b: nat)
    ensures
        two_to(a + b) == two_to(a) * two_to(b),
    decreases b,
{
    if b > 0 {
        lemma_two_to_sum(a, (b - 1) as nat);
        assert(two_to(a + b) == 2 * two_to((a + b - 1) as nat));
        assert(2 * (two_to(a) * two_to((b - 1) as nat)) == two_to(a) * (2 * two_to((b - 1) as nat)))
            by (nonlinear_arith);
    } else {
        assert(two_to(a) * 1 == two_to(a));
    }
}

/// Packs bits into bytes, eight bits to a byte, the most significant first. Bits
/// left over at the end are dropped.
pub fn bits_to_bytes(bits: &[u8]) -> (bytes: Vec<u8>)
    requires
        is_bits(bits@),
    ensures
        bytes@ == bytes_of_bits(bits@),
{
    let count: usize = bits.len() / 8;
    let mut bytes: Vec<u8> = Vec::new();
    let mut i: usize = 0;
    while i < count
        invariant
            i <= count,
            count == bits.len() / 8,
            is_bits(bits@),
            bytes.len() == i,
            forall|q: int| 0 <= q < i ==> bytes@[q] == bytes_of_bits(bits@)[q],
        decreases count - i,
    {
        let chunk = vstd::slice::slice_subrange(bits, 8 * i, 8 * i + 8);
        proof {
            assert forall|q: int| 0 <= q < chunk@.len() implies (#[trigger] chunk@[q]) <= 1 by {
                assert(chunk@[q] == bits@[8 * i + q]);
            }
            lemma_two_to_values();
        }
        let value: usize = bits_to_usize(chunk);
        bytes.push(value as u8);
        i = i + 1;
    }
    assert(bytes@ =~= bytes_of_bits(bits@));
    bytes
}

/// Unpacks bytes into bits, eight for each byte, the most significant first.
pub fn bytes_to_bits(bytes: &[u8]) -> (bits: Vec<u8>)
    requires
        8 * bytes.len() <= usize::MAX,
    ensures
        bits@ == bits_of_bytes(bytes@),
        bits.len() == 8 * bytes.len(),
{
    let mut bits: Vec<u8> = Vec::new();
    let mut i: usize = 0;
    while i < bytes.len()
        invariant
            i <= bytes.len(),
            8 * bytes.len() <= usize::MAX,
            bits@ == bits_of_bytes(bytes@.take(i as int)),
            bits.len() == 8 * i,
        decreases bytes.len() - i,
    {
        proof {
            assert(bytes@.take(i + 1).drop_last() =~= bytes@.take(i as int));
            lemma_bits_of(bytes@[i as int] as int, 8);
        }
        append_bits(&mut bits, bytes[i] as usize, 8);
        i = i + 1;
    }
    assert(bytes@.take(i as int) =~= bytes@);
    bits
}

} // verus!
