//! Little-endian numbers in byte sequences.
use vstd::prelude::*;

verus! {

/// The number that a little-endian byte sequence stands for.
pub open spec fn le_value(bytes: Seq<u8>) -> nat
    decreases bytes.len(),
{
    if bytes.len() == 0 {
        0
    } else {
        bytes[0] as nat + 256 * le_value(bytes.skip(1))
    }
}

/// The `n` little-endian bytes of a number.
pub open spec fn le_bytes(value: nat, n: nat) -> Seq<u8>
    decreases n,
{
    if n == 0 {
        Seq::empty()
    } else {
        seq![(value % 256) as u8] + le_bytes(value / 256, (n - 1) as nat)
    }
}

/// The numbers that `n` bytes can stand for are those below this one.
pub open spec fn le_limit(n: nat) -> nat
    decreases n,
{
    if n == 0 {
        1
    } else {
        256 * le_limit((n - 1) as nat)
    }
}

/// The limits of the widths in use.
pub proof fn lemma_le_limits()
    ensures
        le_limit(1) == 0x100,
        le_limit(2) == 0x1_0000,
        le_limit(4) == 0x1_0000_0000,
        le_limit(8) == 0x1_0000_0000_0000_0000,
{
    reveal_with_fuel(le_limit, 9);
}

/// Bytes stand for a number below their limit, and are its bytes.
pub proof fn lemma_le_of_value(bytes: Seq<u8>)
    ensures
        le_value(bytes) < le_limit(bytes.len()),
        le_bytes(le_value(bytes), bytes.len()) == bytes,
    decreases bytes.len(),
{
    if bytes.len() > 0 {
        let rest = bytes.skip(1);
        lemma_le_of_value(rest);
        let v = le_value(bytes);
        assert(v == bytes[0] + 256 * le_value(rest));
        assert(v % 256 == bytes[0] && v / 256 == le_value(rest));
        assert(le_bytes(v, bytes.len()) =~= seq![bytes[0]] + rest);
        assert(seq![bytes[0]] + rest =~= bytes);
    } else {
        assert(le_bytes(0, 0) =~= bytes);
    }
}

/// The bytes of a number below the limit stand for that number.
pub proof fn lemma_value_of_le(value: nat, n: nat)
    requires
        value < le_limit(n),
    ensures
        le_bytes(value, n).len() == n,
        le_value(le_bytes(value, n)) == value,
    decreases n,
{
    if n > 0 {
        lemma_value_of_le(value / 256, (n - 1) as nat);
        let bytes = le_bytes(value, n);
        assert(bytes.skip(1) =~= le_bytes(value / 256, (n - 1) as nat));
    }
}

/// The number of bytes is the width.
pub proof fn lemma_le_len(value: nat, n: nat)
    ensures
        le_bytes(value, n).len() == n,
    decreases n,
{
    if n > 0 {
        lemma_le_len(value / 256, (n - 1) as nat);
    }
}

/// Append the `n` little-endian bytes of `value`.
pub fn put(out: &mut Vec<u8>, value: u64, n: usize)
    ensures
        final(out)@ == old(out)@ + le_bytes(value as nat, n as nat),
{
    let ghost before = out@;
    let mut rest: u64 = value;
    let mut k: usize = 0;
    assert(before + le_bytes(value as nat, n as nat) =~= out@ + le_bytes(rest as nat, (n - k) as nat));
    while k < n
        invariant
            k <= n,
            before + le_bytes(value as nat, n as nat) == out@ + le_bytes(rest as nat, (n - k) as nat),
        decreases n - k,
    {
        let ghost entry = out@;
        let low: u8 = (rest % 256) as u8;
        out.push(low);
        proof {
            let tail = le_bytes(rest as nat / 256, (n - k - 1) as nat);
            assert(le_bytes(rest as nat, (n - k) as nat) == seq![low] + tail);
            assert(entry + (seq![low] + tail) =~= out@ + tail);
        }
        rest = rest / 256;
        k = k + 1;
    }
    assert(out@ + le_bytes(rest as nat, 0) =~= out@);
}

/// Read the number of `n` little-endian bytes from `at` on.
pub fn get(bytes: &[u8], at: usize, n: usize) -> (value: u64)
    requires
        n <= 8,
        at + n <= bytes@.len(),
    ensures
        value == le_value(bytes@.subrange(at as int, at + n)),
        value < le_limit(n as nat),
{
    let total: usize = bytes.len();
    assert(at + n <= total);
    let mut value: u64 = 0;
    let mut k: usize = n;
    let ghost all = bytes@.subrange(at as int, at + n);
    proof {
        lemma_le_limits();
        assert(all.skip(n as int) =~= Seq::<u8>::empty());
    }
    while k > 0
        invariant
            n <= 8,
            k <= n,
            at + n <= bytes@.len(),
            total == bytes@.len(),
            all == bytes@.subrange(at as int, at + n),
            value == le_value(all.skip(k as int)),
        decreases k,
    {
        k = k - 1;
        proof {
            let rest = all.skip(k + 1);
            lemma_le_of_value(rest);
            reveal_with_fuel(le_limit, 9);
            assert(all.skip(k as int).skip(1) =~= rest);
            assert(le_value(rest) < 0x100_0000_0000_0000);
        }
        let here: usize = at + k;
        value = value * 256 + bytes[here] as u64;
    }
    proof {
        assert(all.skip(0) =~= all);
        lemma_le_of_value(all);
    }
    value
}

/// Append the `n` little-endian bytes of a wide `value`.
pub fn put_wide(out: &mut Vec<u8>, value: u128, n: usize)
    ensures
        final(out)@ == old(out)@ + le_bytes(value as nat, n as nat),
{
    let ghost before = out@;
    let mut rest: u128 = value;
    let mut k: usize = 0;
    while k < n
        invariant
            k <= n,
            before + le_bytes(value as nat, n as nat) == out@ + le_bytes(
                rest as nat,
                (n - k) as nat,
            ),
        decreases n - k,
    {
        let ghost entry = out@;
        let low: u8 = (rest % 256) as u8;
        out.push(low);
        proof {
            let tail = le_bytes(rest as nat / 256, (n - k - 1) as nat);
            assert(le_bytes(rest as nat, (n - k) as nat) == seq![low] + tail);
            assert(entry + (seq![low] + tail) =~= out@ + tail);
        }
        rest = rest / 256;
        k = k + 1;
    }
    assert(out@ + le_bytes(rest as nat, 0) =~= out@);
}

/// Read the wide number of all given little-endian bytes.
pub fn get_wide(bytes: &[u8]) -> (value: u128)
    requires
        bytes@.len() <= 16,
    ensures
        value == le_value(bytes@),
{
    let n: usize = bytes.len();
    let mut value: u128 = 0;
    let mut k: usize = n;
    assert(bytes@.skip(n as int) =~= Seq::<u8>::empty());
    while k > 0
        invariant
            n <= 16,
            k <= n,
            n == bytes@.len(),
            value == le_value(bytes@.skip(k as int)),
        decreases k,
    {
        k = k - 1;
        proof {
            let rest = bytes@.skip(k + 1);
            lemma_le_of_value(rest);
            reveal_with_fuel(le_limit, 17);
            assert(bytes@.skip(k as int).skip(1) =~= rest);
            assert(le_value(rest) < 0x100_0000_0000_0000_0000_0000_0000_0000);
        }
        value = value * 256 + bytes[k] as u128;
    }
    assert(bytes@.skip(0) =~= bytes@);
    value
}

/// The order in which a machine keeps the bytes of a number.
#[derive(Clone, Copy, Debug, PartialEq, Eq, Structural)]
pub enum ByteOrder {
    /// The lowest byte first.
    Little,
    /// The highest byte first.
    Big,
}

impl ByteOrder {
    /// Little-endian bytes in this order, and bytes in this order as little-endian ones.
    pub open spec fn arranged(self, bytes: Seq<u8>) -> Seq<u8> {
        match self {
            ByteOrder::Little => bytes,
            ByteOrder::Big => bytes.reverse(),
        }
    }
}

/// To arrange bytes twice leaves them as they are.
pub proof fn lemma_arranged_twice(order: ByteOrder, bytes: Seq<u8>)
    ensures
        order.arranged(bytes).len() == bytes.len(),
        order.arranged(order.arranged(bytes)) == bytes,
{
    assert(order.arranged(order.arranged(bytes)) =~= bytes);
}

/// Append the lowest `n` bytes of a number in the order of a machine.
pub fn put_ordered(out: &mut Vec<u8>, value: u128, n: usize, order: ByteOrder)
    ensures
        final(out)@ == old(out)@ + order.arranged(le_bytes(value as nat, n as nat)),
        order.arranged(le_bytes(value as nat, n as nat)).len() == n,
{
    proof {
        lemma_le_len(value as nat, n as nat);
        lemma_arranged_twice(order, le_bytes(value as nat, n as nat));
    }
    match order {
        ByteOrder::Little => {
            put_wide(out, value, n);
        },
        ByteOrder::Big => {
            let mut image: Vec<u8> = Vec::new();
            put_wide(&mut image, value, n);
            assert(image@ =~= le_bytes(value as nat, n as nat));
            let ghost before = out@;
            let mut k: usize = n;
            while k > 0
                invariant
                    k <= n,
                    image@.len() == n,
                    out@ == before + image@.reverse().take(n - k),
                decreases k,
            {
                k = k - 1;
                out.push(image[k]);
                assert(out@ =~= before + image@.reverse().take(n - k));
            }
            assert(image@.reverse().take(n as int) =~= image@.reverse());
        },
    }
}

/// Read the number of all given bytes in the order of a machine.
pub fn get_ordered(bytes: &[u8], order: ByteOrder) -> (value: u128)
    requires
        bytes@.len() <= 16,
    ensures
        order.arranged(le_bytes(value as nat, bytes@.len())) == bytes@,
        value < le_limit(bytes@.len()),
{
    proof {
        lemma_le_of_value(order.arranged(bytes@));
        lemma_arranged_twice(order, bytes@);
    }
    match order {
        ByteOrder::Little => get_wide(bytes),
        ByteOrder::Big => {
            let n: usize = bytes.len();
            let mut image: Vec<u8> = Vec::new();
            let mut k: usize = n;
            while k > 0
                invariant
                    k <= n,
                    n == bytes@.len(),
                    image@ == bytes@.reverse().take(n - k),
                decreases k,
            {
                k = k - 1;
                image.push(bytes[k]);
                assert(image@ =~= bytes@.reverse().take(n - k));
            }
            assert(image@ =~= bytes@.reverse());
            get_wide(image.as_slice())
        },
    }
}

} // verus!
