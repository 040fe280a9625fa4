//! Little-endian byte encoding of unsigned integers, shared by the virtual
//! machine (operands, memory) and the assembler (emitted operands).
use vstd::prelude::*;

verus! {

/// `256` raised to the power `n`.
pub open spec fn pow256(n: nat) -> nat
    decreases n,
{
    if n == 0 {
        1
    } else {
        256 * pow256((n - 1) as nat)
    }
}

/// The unsigned value of `bytes` read in little-endian order (least significant byte first).
pub open spec fn le_value(bytes: Seq<u8>) -> nat
    decreases bytes.len(),
{
    if bytes.len() == 0 {
        0
    } else {
        bytes[0] as nat + 256 * le_value(bytes.drop_first())
    }
}

/// The `n` least significant bytes of `value`, least significant first.
pub open spec fn le_bytes(value: nat, n: nat) -> Seq<u8>
    decreases n,
{
    if n == 0 {
        Seq::empty()
    } else {
        seq![(value % 256) as u8] + le_bytes(value / 256, (n - 1) as nat)
    }
}

/// Powers of 256 are positive.
pub proof fn lemma_pow256_positive(n: nat)
    ensures
        pow256(n) >= 1,
    decreases n,
{
    if n > 0 {
        lemma_pow256_positive((n - 1) as nat);
    }
}

/// Powers of 256 grow with the exponent.
pub proof fn lemma_pow256_monotone(m: nat, n: nat)
    requires
        m <= n,
    ensures
        pow256(m) <= pow256(n),
    decreases n,
{
    if m < n {
        lemma_pow256_monotone(m, (n - 1) as nat);
        lemma_pow256_positive((n - 1) as nat);
    }
}

/// The powers of 256 up to the eighth.
pub proof fn lemma_pow256_eight()
    ensures
        pow256(8) == 0x1_0000_0000_0000_0000,
        pow256(4) == 0x1_0000_0000,
        pow256(2) == 0x1_0000,
        pow256(1) == 0x100,
{
    reveal_with_fuel(pow256, 9);
}

/// A sequence of `n` bytes holds a value below `256^n`.
pub proof fn lemma_le_value_bound(bytes: Seq<u8>)
    ensures
        le_value(bytes) < pow256(bytes.len()),
    decreases bytes.len(),
{
    if bytes.len() > 0 {
        lemma_le_value_bound(bytes.drop_first());
    }
}

/// `le_bytes(value, n)` has `n` bytes.
pub proof fn lemma_le_bytes_len(value: nat, n: nat)
    ensures
        le_bytes(value, n).len() == n,
    decreases n,
{
    if n > 0 {
        lemma_le_bytes_len(value / 256, (n - 1) as nat);
    }
}

/// Encoding a value in `n` bytes and reading it back gives the value modulo `256^n`.
pub proof fn lemma_le_value_of_bytes(value: nat, n: nat)
    ensures
        le_value(le_bytes(value, n)) == value % pow256(n),
    decreases n,
{
    if n > 0 {
        let rest = le_bytes(value / 256, (n - 1) as nat);
        lemma_le_value_of_bytes(value / 256, (n - 1) as nat);
        let s = le_bytes(value, n);
        assert(s.drop_first() =~= rest);
        lemma_pow256_positive((n - 1) as nat);
        let p = pow256((n - 1) as nat);
        // value = 256 * (value / 256) + value % 256, and (value / 256) % p gives the upper digits
        assert(le_value(s) == value % 256 + 256 * ((value / 256) % p));
        lemma_div_mod_step(value, p);
    }
}

proof fn lemma_div_mod_step(value: nat, p: nat)
    requires
        p >= 1,
    ensures
        value % 256 + 256 * ((value / 256) % p) == value % (256 * p),
{
    let q = value / 256;
    let r = value % 256;
    assert(value == 256 * q + r) by (nonlinear_arith)
        requires
            q == value / 256,
            r == value % 256,
    ;
    let q2 = q / p;
    let r2 = q % p;
    assert(q == p * q2 + r2) by (nonlinear_arith)
        requires
            p >= 1,
            q2 == q / p,
            r2 == q % p,
    ;
    assert(0 <= r2 < p) by (nonlinear_arith)
        requires
            p >= 1,
            r2 == q % p,
    ;
    assert(value == (256 * p) * q2 + (256 * r2 + r)) by (nonlinear_arith)
        requires
            value == 256 * q + r,
            q == p * q2 + r2,
    ;
    assert(0 <= 256 * r2 + r < 256 * p) by (nonlinear_arith)
        requires
            0 <= r2 < p,
            0 <= r < 256,
    ;
    vstd::arithmetic::div_mod::lemma_fundamental_div_mod_converse(
        value as int,
        (256 * p) as int,
        q2 as int,
        (256 * r2 + r) as int,
    );
}

/// Reading `bytes` and encoding the value in as many bytes gives back `bytes`.
pub proof fn lemma_le_bytes_of_value(bytes: Seq<u8>)
    ensures
        le_bytes(le_value(bytes), bytes.len()) == bytes,
    decreases bytes.len(),
{
    if bytes.len() > 0 {
        let rest = bytes.drop_first();
        lemma_le_bytes_of_value(rest);
        let v = le_value(bytes);
        assert(v == bytes[0] as nat + 256 * le_value(rest));
        assert(v % 256 == bytes[0] as nat && v / 256 == le_value(rest)) by (nonlinear_arith)
            requires
                v == bytes[0] as nat + 256 * le_value(rest),
                bytes[0] < 256,
        ;
        assert(le_bytes(v, bytes.len()) =~= bytes);
    }
}

/// Reads the `n`-byte little-endian value that starts at `start`.
pub fn read_le(bytes: &[u8], start: usize, n: usize) -> (value: u64)
    requires
        n <= 8,
        start + n <= bytes@.len(),
    ensures
        value as nat == le_value(bytes@.subrange(start as int, start + n)),
{
    let ghost end = start + n;
    let mut value: u64 = 0;
    let mut i: usize = n;
    proof {
        assert(bytes@.subrange(end, end) =~= Seq::<u8>::empty());
    }
    while i > 0
        invariant
            i <= n <= 8,
            end == start + n,
            end <= bytes@.len(),
            end <= bytes.len(),
            value as nat == le_value(bytes@.subrange(start + i, end)),
        decreases i,
    {
        let ghost old_sub = bytes@.subrange(start + i, end);
        i = i - 1;
        let b = bytes[start + i];
        let ghost sub = bytes@.subrange(start + i, end);
        proof {
            assert(sub.drop_first() =~= old_sub);
            lemma_le_value_bound(old_sub);
            lemma_pow256_monotone((n - i - 1) as nat, 7);
            reveal_with_fuel(pow256, 8);
            assert(value * 256 + b < 0x1_0000_0000_0000_0000) by (nonlinear_arith)
                requires
                    value < pow256(7),
                    pow256(7) == 0x100_0000_0000_0000,
                    b < 256,
            ;
        }
        value = value * 256 + b as u64;
    }
    value
}

/// Appends the `n` least significant bytes of `value`, least significant first.
pub fn push_le(out: &mut Vec<u8>, value: u64, n: usize)
    ensures
        final(out)@ == old(out)@ + le_bytes(value as nat, n as nat),
{
    let mut v = value;
    let mut i: usize = 0;
    while i < n
        invariant
            i <= n,
            out@ + le_bytes(v as nat, (n - i) as nat) == old(out)@ + le_bytes(value as nat, n as nat),
        decreases n - i,
    {
        let ghost before = out@;
        let ghost rest = le_bytes((v / 256) as nat, (n - i - 1) as nat);
        out.push((v % 256) as u8);
        proof {
            assert(le_bytes(v as nat, (n - i) as nat) == seq![(v % 256) as u8] + rest);
            assert(out@ + rest =~= before + (seq![(v % 256) as u8] + rest));
        }
        v = v / 256;
        i = i + 1;
    }
    proof {
        assert(out@ + le_bytes(v as nat, 0) =~= out@);
    }
}

/// Overwrites `bytes[start..start + n]` with the `n` least significant bytes of `value`.
pub fn write_le(bytes: &mut Vec<u8>, start: usize, value: u64, n: usize)
    requires
        start + n <= old(bytes)@.len(),
    ensures
        final(bytes)@ == old(bytes)@.take(start as int) + le_bytes(value as nat, n as nat)
            + old(bytes)@.skip(start + n),
{
    let mut v = value;
    let mut i: usize = 0;
    proof {
        lemma_le_bytes_len(value as nat, n as nat);
    }
    while i < n
        invariant
            i <= n,
            start + n <= old(bytes)@.len(),
            start + n <= bytes.len(),
            bytes@.len() == old(bytes)@.len(),
            le_bytes(value as nat, n as nat).len() == n,
            forall|k: int| 0 <= k < start ==> bytes@[k] == old(bytes)@[k],
            forall|k: int| start + n <= k < bytes@.len() ==> bytes@[k] == old(bytes)@[k],
            forall|k: int| 0 <= k < i ==> bytes@[start + k] == le_bytes(value as nat, n as nat)[k],
            le_bytes(v as nat, (n - i) as nat) == le_bytes(value as nat, n as nat).skip(i as int),
        decreases n - i,
    {
        let ghost tail = le_bytes(value as nat, n as nat).skip(i as int);
        proof {
            assert(le_bytes(v as nat, (n - i) as nat)[0] == (v % 256) as u8);
            assert(le_bytes(v as nat, (n - i) as nat).drop_first() =~= le_bytes(
                (v / 256) as nat,
                (n - i - 1) as nat,
            ));
            assert(tail.drop_first() =~= le_bytes(value as nat, n as nat).skip(i + 1));
        }
        bytes.set(start + i, (v % 256) as u8);
        v = v / 256;
        i = i + 1;
    }
    proof {
        assert(bytes@ =~= old(bytes)@.take(start as int) + le_bytes(value as nat, n as nat)
            + old(bytes)@.skip(start + n));
    }
}

} // verus!
