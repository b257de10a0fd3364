use vstd::prelude::*;

verus! {

/// `256` raised to the power `n`.
pub open spec fn pow256(n: nat) -> nat
    decreases n,
{
    if n == 0 {
        1
    } else {
        256 * pow256((n - 1) as nat)
    }
}

/// The number that a little-endian byte sequence denotes.
pub open spec fn le_value(s: Seq<u8>) -> nat
    decreases s.len(),
{
    if s.len() == 0 {
        0
    } else {
        s[0] as nat + 256 * le_value(s.drop_first())
    }
}

/// The `n` low-order bytes of `v`, least significant first.
pub open spec fn le_bytes(v: nat, n: nat) -> Seq<u8>
    decreases n,
{
    if n == 0 {
        Seq::empty()
    } else {
        seq![(v % 256) as u8] + le_bytes(v / 256, (n - 1) as nat)
    }
}

pub proof fn lemma_pow256_positive(n: nat)
    ensures
        pow256(n) >= 1,
    decreases n,
{
    if n > 0 {
        lemma_pow256_positive((n - 1) as nat);
    }
}

pub proof fn lemma_pow256_monotonic(a: nat, b: nat)
    requires
        a <= b,
    ensures
        pow256(a) <= pow256(b),
    decreases b,
{
    if a < b {
        lemma_pow256_monotonic(a, (b - 1) as nat);
        lemma_pow256_positive((b - 1) as nat);
    }
}

/// `256^16` is the number of values of a `u128`.
pub proof fn lemma_pow256_16()
    ensures
        pow256(16) == 0x1_0000_0000_0000_0000_0000_0000_0000_0000,
{
    reveal_with_fuel(pow256, 17);
}

/// A little-endian sequence of `n` bytes denotes a number below `256^n`.
pub proof fn lemma_le_value_bound(s: Seq<u8>)
    ensures
        le_value(s) < pow256(s.len()),
    decreases s.len(),
{
    if s.len() > 0 {
        lemma_le_value_bound(s.drop_first());
        let rest = le_value(s.drop_first());
        let p = pow256((s.len() - 1) as nat);
        assert(s[0] as nat + 256 * rest < 256 * p) by (nonlinear_arith)
            requires
                rest < p,
                s[0] < 256,
        ;
    }
}

/// Reading back the `n` low-order bytes of a number below `256^n` gives the number.
pub proof fn lemma_le_round_trip(v: nat, n: nat)
    requires
        v < pow256(n),
    ensures
        le_bytes(v, n).len() == n,
        le_value(le_bytes(v, n)) == v,
    decreases n,
{
    if n > 0 {
        let p = pow256((n - 1) as nat);
        assert(v / 256 < p) by (nonlinear_arith)
            requires
                v < 256 * p,
        ;
        lemma_le_round_trip(v / 256, (n - 1) as nat);
        let s = le_bytes(v, n);
        assert(s.drop_first() =~= le_bytes(v / 256, (n - 1) as nat));
        assert(v == v % 256 + 256 * (v / 256)) by (nonlinear_arith);
    }
}

/// Writes the `width` low-order bytes of `value`, least significant first.
pub fn write_le(out: &mut Vec<u8>, value: u128, width: usize)
    requires
        width <= 16,
        value < pow256(width as nat),
    ensures
        final(out)@ == old(out)@ + le_bytes(value as nat, width as nat),
{
    let mut rem: u128 = value;
    let mut i: usize = 0;
    while i < width
        invariant
            i <= width,
            out@ + le_bytes(rem as nat, (width - i) as nat) == old(out)@ + le_bytes(
                value as nat,
                width as nat,
            ),
        decreases width - i,
    {
        let b: u8 = (rem % 256) as u8;
        let ghost before = out@;
        out.push(b);
        proof {
            let k = (width - i) as nat;
            assert(le_bytes(rem as nat, k) == seq![b] + le_bytes(rem as nat / 256, (k - 1) as nat));
            assert(out@ + le_bytes(rem as nat / 256, (k - 1) as nat) =~= before + le_bytes(
                rem as nat,
                k,
            ));
        }
        rem = rem / 256;
        i = i + 1;
    }
}

/// The number that `bytes[start..end]` denotes, read little-endian.
pub fn read_le(bytes: &Vec<u8>, start: usize, end: usize) -> (r: u128)
    requires
        start <= end <= bytes@.len(),
        end - start <= 16,
    ensures
        r as nat == le_value(bytes@.subrange(start as int, end as int)),
{
    let mut v: u128 = 0;
    let mut i: usize = end;
    proof {
        assert(bytes@.subrange(end as int, end as int) =~= Seq::<u8>::empty());
    }
    while i > start
        invariant
            start <= i <= end,
            end <= bytes@.len(),
            end - start <= 16,
            v as nat == le_value(bytes@.subrange(i as int, end as int)),
        decreases i - start,
    {
        let ghost tail = bytes@.subrange(i as int, end as int);
        let ghost longer = bytes@.subrange(i - 1, end as int);
        proof {
            lemma_le_value_bound(tail);
            lemma_pow256_monotonic(tail.len(), 15);
            lemma_pow256_16();
            reveal_with_fuel(pow256, 2);
            assert(pow256(16) == 256 * pow256(15));
            assert(longer.drop_first() =~= tail);
            let b = bytes@[i - 1];
            assert(v * 256 + b < 0x1_0000_0000_0000_0000_0000_0000_0000_0000) by (nonlinear_arith)
                requires
                    v < pow256(15),
                    b < 256,
                    pow256(16) == 256 * pow256(15),
                    pow256(16) == 0x1_0000_0000_0000_0000_0000_0000_0000_0000,
            ;
        }
        v = v * 256 + bytes[i - 1] as u128;
        i = i - 1;
    }
    v
}

/// `10` raised to the power `n`.
pub open spec fn pow10(n: nat) -> nat
    decreases n,
{
    if n == 0 {
        1
    } else {
        10 * pow10((n - 1) as nat)
    }
}

pub fn power_of_ten(n: u8) -> (r: u128)
    requires
        n <= 38,
    ensures
        r as nat == pow10(n as nat),
        r >= 1,
{
    let mut r: u128 = 1;
    let mut i: u8 = 0;
    while i < n
        invariant
            i <= n <= 38,
            r as nat == pow10(i as nat),
            1 <= r,
        decreases n - i,
    {
        proof {
            lemma_pow10_bound(i as nat);
        }
        r = r * 10;
        i = i + 1;
    }
    r
}

proof fn lemma_pow10_bound(n: nat)
    requires
        n < 38,
    ensures
        pow10(n) * 10 <= 100_000_000_000_000_000_000_000_000_000_000_000_000,
        pow10(n + 1) == 10 * pow10(n),
{
    lemma_pow10_monotonic(n + 1, 38);
    lemma_pow10_38();
}

/// `10^9` is the number of nanoseconds in a second.
pub proof fn lemma_pow10_9()
    ensures
        pow10(9) == 1_000_000_000,
{
    reveal_with_fuel(pow10, 10);
}

proof fn lemma_pow10_38()
    ensures
        pow10(38) == 100_000_000_000_000_000_000_000_000_000_000_000_000,
{
    reveal_with_fuel(pow10, 39);
}

pub proof fn lemma_pow10_monotonic(a: nat, b: nat)
    requires
        a <= b,
    ensures
        pow10(a) <= pow10(b),
    decreases b,
{
    if a < b {
        lemma_pow10_monotonic(a, (b - 1) as nat);
    }
}

/// Appends `src[start..end]` to `out`.
pub fn append_range(out: &mut Vec<u8>, src: &Vec<u8>, start: usize, end: usize)
    requires
        start <= end <= src@.len(),
    ensures
        final(out)@ == old(out)@ + src@.subrange(start as int, end as int),
{
    let mut i: usize = start;
    while i < end
        invariant
            start <= i <= end,
            end <= src@.len(),
            out@ == old(out)@ + src@.subrange(start as int, i as int),
        decreases end - i,
    {
        out.push(src[i]);
        proof {
            assert(src@.subrange(start as int, i + 1) =~= src@.subrange(start as int, i as int).push(
                src@[i as int],
            ));
        }
        i = i + 1;
    }
}

} // verus!
