//! Big-endian integers as they travel on the wire: the length prefixes of
//! text and names, and the octets of the addresses in a peer list.
use vstd::prelude::*;

verus! {

/// `256` raised to the power `n`: one more than the largest value that `n`
/// big-endian bytes can hold.
pub open spec fn pow256(n: nat) -> nat
    decreases n,
{
    if n == 0 {
        1
    } else {
        256 * pow256((n - 1) as nat)
    }
}

/// The value of a big-endian byte string.
pub open spec fn be_value(bytes: Seq<u8>) -> nat
    decreases bytes.len(),
{
    if bytes.len() == 0 {
        0
    } else {
        be_value(bytes.drop_last()) * 256 + (bytes.last() as nat)
    }
}

/// The `n` low-order bytes of `x`, most significant first.
pub open spec fn be_bytes(x: nat, n: nat) -> Seq<u8>
    decreases n,
{
    if n == 0 {
        seq![]
    } else {
        be_bytes(x / 256, (n - 1) as nat).push((x % 256) as u8)
    }
}

pub proof fn lemma_pow256_positive(n: nat)
    ensures
        pow256(n) >= 1,
    decreases n,
{
    if n > 0 {
        lemma_pow256_positive((n - 1) as nat);
    }
}

pub proof fn lemma_pow256_monotone(a: nat, b: nat)
    requires
        a <= b,
    ensures
        pow256(a) <= pow256(b),
    decreases b,
{
    if a < b {
        lemma_pow256_monotone(a, (b - 1) as nat);
        lemma_pow256_positive((b - 1) as nat);
    }
}

pub proof fn lemma_pow256_values()
    ensures
        pow256(1) == 256,
        pow256(4) == 0x1_0000_0000,
        pow256(16) == 0x1_0000_0000_0000_0000_0000_0000_0000_0000,
{
    reveal_with_fuel(pow256, 17);
}

pub proof fn lemma_be_bytes_len(x: nat, n: nat)
    ensures
        be_bytes(x, n).len() == n,
    decreases n,
{
    if n > 0 {
        lemma_be_bytes_len(x / 256, (n - 1) as nat);
    }
}

/// A big-endian byte string of length `n` holds a value below `256^n`.
pub proof fn lemma_be_value_bound(bytes: Seq<u8>)
    ensures
        be_value(bytes) < pow256(bytes.len()),
    decreases bytes.len(),
{
    if bytes.len() > 0 {
        let init = bytes.drop_last();
        lemma_be_value_bound(init);
        assert(be_value(init) + 1 <= pow256(init.len()));
        assert((be_value(init) + 1) * 256 <= pow256(init.len()) * 256) by (nonlinear_arith)
            requires
                be_value(init) + 1 <= pow256(init.len()),
        ;
    }
}

/// Reading back `n` written bytes gives the value, when it fits in them.
pub proof fn lemma_be_value_of_bytes(x: nat, n: nat)
    requires
        x < pow256(n),
    ensures
        be_value(be_bytes(x, n)) == x,
    decreases n,
{
    if n > 0 {
        let q = x / 256;
        let r = x % 256;
        assert(x == q * 256 + r && r < 256);
        assert(q < pow256((n - 1) as nat)) by (nonlinear_arith)
            requires
                x == q * 256 + r,
                r < 256,
                x < 256 * pow256((n - 1) as nat),
        ;
        lemma_be_value_of_bytes(q, (n - 1) as nat);
        let s = be_bytes(x, n);
        assert(s.drop_last() =~= be_bytes(q, (n - 1) as nat));
        assert(s.last() == r as u8);
    }
}

/// Writing the value of a byte string gives the byte string back.
pub proof fn lemma_be_bytes_of_value(bytes: Seq<u8>)
    ensures
        be_bytes(be_value(bytes), bytes.len()) == bytes,
    decreases bytes.len(),
{
    if bytes.len() > 0 {
        let init = bytes.drop_last();
        let v = be_value(init);
        let b = bytes.last();
        lemma_be_bytes_of_value(init);
        let x: nat = v * 256 + (b as nat);
        assert(x / 256 == v && x % 256 == b) by (nonlinear_arith)
            requires
                x == v * 256 + b,
                b < 256,
        ;
        assert(be_bytes(x, bytes.len()) =~= init.push(b));
        assert(init.push(b) =~= bytes);
    }
}

/// The big-endian bytes of a sequence of values, each written in `width` bytes.
pub open spec fn be_concat(values: Seq<nat>, width: nat) -> Seq<u8>
    decreases values.len(),
{
    if values.len() == 0 {
        seq![]
    } else {
        be_concat(values.drop_last(), width) + be_bytes(values.last(), width)
    }
}

pub proof fn lemma_be_concat_len(values: Seq<nat>, width: nat)
    ensures
        be_concat(values, width).len() == values.len() * width,
    decreases values.len(),
{
    if values.len() > 0 {
        lemma_be_concat_len(values.drop_last(), width);
        lemma_be_bytes_len(values.last(), width);
        assert((values.len() - 1) * width + width == values.len() * width) by (nonlinear_arith);
    }
}

/// The `i`-th value of a concatenation sits in bytes `i * width .. (i + 1) * width`.
pub proof fn lemma_be_concat_chunk(values: Seq<nat>, width: nat, i: int)
    requires
        0 <= i < values.len(),
    ensures
        0 <= i * width,
        (i + 1) * width <= values.len() * width,
        be_concat(values, width).subrange(i * width, (i + 1) * width) == be_bytes(values[i], width),
    decreases values.len(),
{
    lemma_be_concat_len(values, width);
    assert(0 <= i * width) by (nonlinear_arith)
        requires
            0 <= i,
    ;
    assert((i + 1) * width <= values.len() * width) by (nonlinear_arith)
        requires
            i + 1 <= values.len(),
    ;
    assert((i + 1) * width == i * width + width) by (nonlinear_arith);
    let init = values.drop_last();
    lemma_be_concat_len(init, width);
    lemma_be_bytes_len(values.last(), width);
    if i == values.len() - 1 {
        assert(i * width == init.len() * width);
        assert((i + 1) * width == init.len() * width + width) by (nonlinear_arith)
            requires
                i == init.len(),
        ;
        assert(be_concat(values, width).subrange(i * width, (i + 1) * width) =~= be_bytes(
            values[i],
            width,
        ));
    } else {
        lemma_be_concat_chunk(init, width, i);
        assert(be_concat(values, width) == be_concat(init, width) + be_bytes(values.last(), width));
        assert((i + 1) * width <= init.len() * width) by (nonlinear_arith)
            requires
                i + 1 <= init.len(),
        ;
        assert(be_concat(values, width).subrange(i * width, (i + 1) * width) =~= be_concat(
            init,
            width,
        ).subrange(i * width, (i + 1) * width));
    }
}

/// Appends the `n` low-order bytes of `x` to `out`, most significant first.
pub fn push_be(out: &mut Vec<u8>, x: u128, n: usize)
    requires
        n <= 16,
    ensures
        final(out)@ == old(out)@ + be_bytes(x as nat, n as nat),
    decreases n,
{
    if n > 0 {
        push_be(out, x / 256, n - 1);
        out.push((x % 256) as u8);
        assert(final(out)@ =~= old(out)@ + be_bytes(x as nat, n as nat));
    } else {
        assert(final(out)@ =~= old(out)@ + be_bytes(x as nat, n as nat));
    }
}

/// The value of the `n` big-endian bytes of `bytes` that start at `start`.
pub fn read_be(bytes: &[u8], start: usize, n: usize) -> (r: u128)
    requires
        start + n <= bytes@.len(),
        n <= 16,
    ensures
        r == be_value(bytes@.subrange(start as int, start + n)),
{
    let len = bytes.len();
    let mut acc: u128 = 0;
    let mut i: usize = 0;
    proof {
        lemma_pow256_values();
        lemma_pow256_monotone(n as nat, 16);
        assert(bytes@.subrange(start as int, start as int) =~= Seq::<u8>::empty());
    }
    while i < n
        invariant
            i <= n,
            n <= 16,
            start + n <= bytes@.len(),
            len == bytes@.len(),
            pow256(n as nat) <= pow256(16),
            pow256(16) == 0x1_0000_0000_0000_0000_0000_0000_0000_0000,
            acc == be_value(bytes@.subrange(start as int, start + i)),
        decreases n - i,
    {
        let ghost prefix = bytes@.subrange(start as int, start + i);
        let ghost next = bytes@.subrange(start as int, start + i + 1);
        proof {
            assert(next.drop_last() =~= prefix);
            lemma_be_value_bound(next);
            lemma_pow256_monotone((i + 1) as nat, n as nat);
        }
        acc = acc * 256 + bytes[start + i] as u128;
        i = i + 1;
    }
    acc
}

} // verus!
