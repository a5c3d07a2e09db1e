//! Big-endian integers on the wire and small helpers on byte strings.

use vstd::prelude::*;

verus! {

/// 256 to the power `n`.
pub open spec fn pow256(n: nat) -> nat
    decreases n,
{
    if n == 0 {
        1
    } else {
        256 * pow256((n - 1) as nat)
    }
}

/// The number that the bytes of `b` spell, most significant byte first.
pub open spec fn be_value(b: Seq<u8>) -> nat
    decreases b.len(),
{
    if b.len() == 0 {
        0
    } else {
        be_value(b.drop_last()) * 256 + b.last() as nat
    }
}

/// The `n` low-order bytes of `v`, most significant byte first.
pub open spec fn be_bytes(v: nat, n: nat) -> Seq<u8>
    decreases n,
{
    if n == 0 {
        Seq::<u8>::empty()
    } else {
        be_bytes(v / 256, (n - 1) as nat).push((v % 256) as u8)
    }
}

pub proof fn lemma_pow256_values()
    ensures
        pow256(0) == 1,
        pow256(1) == 0x100,
        pow256(2) == 0x1_0000,
        pow256(4) == 0x1_0000_0000,
        pow256(8) == 0x1_0000_0000_0000_0000,
        pow256(16) == 0x1_0000_0000_0000_0000_0000_0000_0000_0000,
{
    reveal_with_fuel(pow256, 17);
}

pub proof fn lemma_pow256_monotonic(a: nat, b: nat)
    requires
        a <= b,
    ensures
        0 < pow256(a) <= pow256(b),
    decreases b,
{
    if b == 0 {
    } else if a == b {
        lemma_pow256_monotonic((a - 1) as nat, (b - 1) as nat);
    } else {
        lemma_pow256_monotonic(a, (b - 1) as nat);
    }
}

pub proof fn lemma_be_bytes_len(v: nat, n: nat)
    ensures
        be_bytes(v, n).len() == n,
    decreases n,
{
    if n > 0 {
        lemma_be_bytes_len(v / 256, (n - 1) as nat);
    }
}

/// A string of `n` bytes spells a number below 256 to the `n`.
pub proof fn lemma_be_value_bound(b: Seq<u8>)
    ensures
        be_value(b) < pow256(b.len()),
    decreases b.len(),
{
    if b.len() > 0 {
        lemma_be_value_bound(b.drop_last());
    }
}

/// Writing a number that fits in `n` bytes and reading it back gives the number.
pub proof fn lemma_be_value_of_bytes(v: nat, n: nat)
    requires
        v < pow256(n),
    ensures
        be_value(be_bytes(v, n)) == v,
    decreases n,
{
    if n > 0 {
        let rest = be_bytes(v / 256, (n - 1) as nat);
        lemma_be_value_of_bytes(v / 256, (n - 1) as nat);
        assert(be_bytes(v, n).drop_last() =~= rest);
    }
}

/// Reading a byte string and writing the number back at the same width gives the string.
pub proof fn lemma_be_bytes_of_value(b: Seq<u8>)
    ensures
        be_bytes(be_value(b), b.len()) == b,
    decreases b.len(),
{
    if b.len() > 0 {
        lemma_be_bytes_of_value(b.drop_last());
        let v = be_value(b);
        assert(v / 256 == be_value(b.drop_last()));
        assert(v % 256 == b.last() as nat);
        assert(be_bytes(v, b.len()) =~= b);
    }
}

/// Reads up to sixteen bytes as one big-endian number.
pub fn be_decode(b: &[u8]) -> (v: u128)
    requires
        b@.len() <= 16,
    ensures
        v as nat == be_value(b@),
{
    let mut acc: u128 = 0;
    let mut i: usize = 0;
    while i < b.len()
        invariant
            i <= b@.len() <= 16,
            acc as nat == be_value(b@.take(i as int)),
        decreases b@.len() - i,
    {
        proof {
            let prefix = b@.take(i as int);
            lemma_be_value_bound(prefix);
            lemma_pow256_monotonic(i as nat, 15);
            lemma_pow256_values();
            reveal_with_fuel(pow256, 16);
            assert(b@.take(i + 1).drop_last() =~= prefix);
        }
        acc = acc * 256 + b[i] as u128;
        i += 1;
    }
    proof {
        assert(b@.take(i as int) =~= b@);
    }
    acc
}

/// Writes the `n` low-order bytes of `v`, most significant first.
pub fn be_encode(v: u128, n: usize) -> (out: Vec<u8>)
    requires
        n <= 16,
    ensures
        out@ == be_bytes(v as nat, n as nat),
        out@.len() == n,
{
    let mut out: Vec<u8> = Vec::new();
    let mut i: usize = 0;
    while i < n
        invariant
            i <= n <= 16,
            out@.len() == i,
        decreases n - i,
    {
        out.push(0u8);
        i += 1;
    }
    let mut rest: u128 = v;
    let mut k: usize = n;
    while k > 0
        invariant
            k <= n <= 16,
            out@.len() == n,
            be_bytes(v as nat, n as nat) =~= be_bytes(rest as nat, k as nat) + out@.skip(k as int),
        decreases k,
    {
        let low: u8 = (rest % 256) as u8;
        let ghost before = out@;
        out[k - 1] = low;
        proof {
            lemma_be_bytes_len(rest as nat / 256, (k - 1) as nat);
            lemma_be_bytes_len(rest as nat, k as nat);
            assert(be_bytes(rest as nat, k as nat) + before.skip(k as int) =~= be_bytes(
                rest as nat / 256,
                (k - 1) as nat,
            ) + out@.skip(k - 1));
        }
        rest = rest / 256;
        k -= 1;
    }
    proof {
        lemma_be_bytes_len(v as nat, n as nat);
    }
    out
}

/// Copies `src[from..to]` onto the end of `out`.
pub fn append_range(out: &mut Vec<u8>, src: &[u8], from: usize, to: usize)
    requires
        from <= to <= src@.len(),
    ensures
        final(out)@ == old(out)@ + src@.subrange(from as int, to as int),
{
    let mut i: usize = from;
    while i < to
        invariant
            from <= i <= to <= src@.len(),
            out@ == old(out)@ + src@.subrange(from as int, i as int),
        decreases to - i,
    {
        out.push(src[i]);
        proof {
            assert(src@.subrange(from as int, i + 1) =~= src@.subrange(from as int, i as int).push(
                src@[i as int],
            ));
        }
        i += 1;
    }
}

/// The `N` bytes of `src` that start at `from`, as an array.
pub fn array_at<const N: usize>(src: &[u8], from: usize) -> (out: [u8; N])
    requires
        from + N <= src@.len(),
    ensures
        out@ == src@.subrange(from as int, from + N),
{
    let total: usize = src.len();
    let mut out: [u8; N] = [0u8; N];
    let mut i: usize = 0;
    while i < N
        invariant
            i <= N,
            from + N <= total == src@.len(),
            forall|k: int| 0 <= k < i ==> out@[k] == src@[from + k],
        decreases N - i,
    {
        out[i] = src[from + i];
        i += 1;
    }
    assert(out@ =~= src@.subrange(from as int, from + N));
    out
}

/// Whether two byte strings hold the same bytes.
pub fn bytes_equal(a: &[u8], b: &[u8]) -> (same: bool)
    ensures
        same == (a@ == b@),
{
    if a.len() != b.len() {
        return false;
    }
    let mut i: usize = 0;
    while i < a.len()
        invariant
            i <= a@.len() == b@.len(),
            a@.take(i as int) == b@.take(i as int),
        decreases a@.len() - i,
    {
        if a[i] != b[i] {
            return false;
        }
        proof {
            assert(a@.take(i + 1) =~= a@.take(i as int).push(a@[i as int]));
            assert(b@.take(i + 1) =~= b@.take(i as int).push(b@[i as int]));
        }
        i += 1;
    }
    proof {
        assert(a@.take(i as int) =~= a@);
        assert(b@.take(i as int) =~= b@);
    }
    true
}

} // verus!
