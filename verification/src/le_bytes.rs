//! Little-endian integer encoding.

use vstd::prelude::*;

verus! {

/// The number that a little-endian byte sequence encodes.
pub open spec fn le_value(s: Seq<u8>) -> nat
    decreases s.len(),
{
    if s.len() == 0 {
        0
    } else {
        s[0] as nat + 256 * le_value(s.drop_first())
    }
}

/// The `n` little-endian bytes of `x` (its lowest `8 * n` bits).
pub open spec fn le_bytes(x: nat, n: nat) -> Seq<u8>
    decreases n,
{
    if n == 0 {
        Seq::empty()
    } else {
        seq![(x % 256) as u8] + le_bytes(x / 256, (n - 1) as nat)
    }
}

/// `256` to the power `n`.
pub open spec fn pow256(n: nat) -> nat
    decreases n,
{
    if n == 0 {
        1
    } else {
        256 * pow256((n - 1) as nat)
    }
}

/// `n` bytes encode exactly the numbers below `256^n`.
pub proof fn lemma_le_value_bound(s: Seq<u8>)
    ensures
        le_value(s) < pow256(s.len()),
    decreases s.len(),
{
    if s.len() > 0 {
        lemma_le_value_bound(s.drop_first());
    }
}

/// Encoding gives `n` bytes.
pub proof fn lemma_le_bytes_len(x: nat, n: nat)
    ensures
        le_bytes(x, n).len() == n,
    decreases n,
{
    if n > 0 {
        lemma_le_bytes_len(x / 256, (n - 1) as nat);
    }
}

/// Decoding an encoding gives the number back.
pub proof fn lemma_le_roundtrip(x: nat, n: nat)
    requires
        x < pow256(n),
    ensures
        le_bytes(x, n).len() == n,
        le_value(le_bytes(x, n)) == x,
    decreases n,
{
    lemma_le_bytes_len(x, n);
    if n > 0 {
        let rest = le_bytes(x / 256, (n - 1) as nat);
        assert(x / 256 < pow256((n - 1) as nat));
        lemma_le_roundtrip(x / 256, (n - 1) as nat);
        assert(le_bytes(x, n).drop_first() == rest);
    }
}

/// Encoding the number that some bytes encode gives the bytes back.
pub proof fn lemma_le_bytes_of_value(s: Seq<u8>)
    ensures
        le_bytes(le_value(s), s.len()) == s,
    decreases s.len(),
{
    if s.len() > 0 {
        let rest = s.drop_first();
        lemma_le_bytes_of_value(rest);
        let v = le_value(s);
        assert(v % 256 == s[0] as nat);
        assert(v / 256 == le_value(rest));
        assert(le_bytes(v, s.len()) == seq![s[0]] + rest);
        assert(s == seq![s[0]] + rest);
    }
}

/// Appends the 4 little-endian bytes of `x`.
pub fn push_u32_le(buf: &mut Vec<u8>, x: u32)
    ensures
        final(buf)@ == old(buf)@ + le_bytes(x as nat, 4),
{
    let b0 = (x % 256) as u8;
    let x1 = x / 256;
    let b1 = (x1 % 256) as u8;
    let x2 = x1 / 256;
    let b2 = (x2 % 256) as u8;
    let x3 = x2 / 256;
    let b3 = (x3 % 256) as u8;
    buf.push(b0);
    buf.push(b1);
    buf.push(b2);
    buf.push(b3);
    proof {
        reveal_with_fuel(le_bytes, 5);
        assert(final(buf)@ =~= old(buf)@ + le_bytes(x as nat, 4));
    }
}

/// Appends the 8 little-endian bytes of `x`.
pub fn push_u64_le(buf: &mut Vec<u8>, x: u64)
    ensures
        final(buf)@ == old(buf)@ + le_bytes(x as nat, 8),
{
    let mut y = x;
    let mut i: usize = 0;
    let ghost start = buf@;
    proof {
        assert(pow256(0) == 1);
        assert(le_bytes(x as nat, 0) =~= Seq::<u8>::empty());
        assert(start + le_bytes(x as nat, 0) =~= start);
    }
    while i < 8
        invariant
            i <= 8,
            buf@ == start + le_bytes(x as nat, i as nat),
            y as nat == x as nat / pow256(i as nat),
            start == old(buf)@,
        decreases 8 - i,
    {
        proof {
            lemma_le_bytes_snoc(x as nat, i as nat);
            lemma_div_pow256_step(x as nat, i as nat);
        }
        buf.push((y % 256) as u8);
        y = y / 256;
        i += 1;
    }
}

/// Encoding one more byte appends the next digit.
proof fn lemma_le_bytes_snoc(x: nat, n: nat)
    ensures
        le_bytes(x, n + 1) == le_bytes(x, n).push(((x / pow256(n)) % 256) as u8),
    decreases n,
{
    if n == 0 {
        assert(pow256(0) == 1);
        reveal_with_fuel(le_bytes, 2);
        assert(le_bytes(x, 1) =~= seq![(x % 256) as u8] + Seq::<u8>::empty());
        assert(le_bytes(x, 0) =~= Seq::<u8>::empty());
        assert(le_bytes(x, 1) =~= le_bytes(x, 0).push(((x / pow256(0)) % 256) as u8));
    } else {
        lemma_le_bytes_snoc(x / 256, (n - 1) as nat);
        lemma_div_div_256(x, (n - 1) as nat);
        let a = seq![(x % 256) as u8];
        let b = le_bytes(x / 256, (n - 1) as nat);
        let c = ((x / pow256(n)) % 256) as u8;
        assert(le_bytes(x, n + 1) == a + le_bytes(x / 256, n));
        assert(le_bytes(x / 256, n) == b.push(c));
        assert(le_bytes(x, n) == a + b);
        assert(a + b.push(c) =~= (a + b).push(c));
    }
}

proof fn lemma_div_div_256(x: nat, n: nat)
    ensures
        (x / 256) / pow256(n) == x / pow256(n + 1),
{
    lemma_pow256_pos(n);
    assert(pow256(n + 1) == 256 * pow256(n));
    vstd::arithmetic::div_mod::lemma_div_denominator(x as int, 256, pow256(n) as int);
}

proof fn lemma_div_pow256_step(x: nat, n: nat)
    ensures
        (x / pow256(n)) / 256 == x / pow256(n + 1),
{
    lemma_pow256_pos(n);
    assert(pow256(n + 1) == 256 * pow256(n));
    vstd::arithmetic::div_mod::lemma_div_denominator(x as int, pow256(n) as int, 256);
    assert(pow256(n) * 256 == 256 * pow256(n)) by (nonlinear_arith);
}

/// Powers of 256 are positive.
pub proof fn lemma_pow256_pos(n: nat)
    ensures
        pow256(n) > 0,
    decreases n,
{
    if n > 0 {
        lemma_pow256_pos((n - 1) as nat);
    }
}

/// Reads the `u32` whose 4 little-endian bytes start at `pos`.
pub fn read_u32_le(data: &[u8], pos: usize) -> (x: u32)
    requires
        pos + 4 <= data@.len(),
    ensures
        x as nat == le_value(data@.subrange(pos as int, pos + 4)),
{
    let b0 = data[pos] as u32;
    let b1 = data[pos + 1] as u32;
    let b2 = data[pos + 2] as u32;
    let b3 = data[pos + 3] as u32;
    proof {
        let s = data@.subrange(pos as int, pos + 4);
        reveal_with_fuel(le_value, 5);
        assert(s.drop_first().drop_first().drop_first().drop_first().len() == 0);
        assert(s[0] == data@[pos as int] && s[1] == data@[pos + 1] && s[2] == data@[pos + 2] && s[3]
            == data@[pos + 3]);
    }
    b0 + 256 * (b1 + 256 * (b2 + 256 * b3))
}

/// Reads the `u64` whose 8 little-endian bytes start at `pos`.
pub fn read_u64_le(data: &[u8], pos: usize) -> (x: u64)
    requires
        pos + 8 <= data@.len(),
    ensures
        x as nat == le_value(data@.subrange(pos as int, pos + 8)),
{
    let n = data.len();
    assert(pos + 8 <= n);
    read_le_upto8(data, pos, pos + 8)
}

/// Reads the number whose little-endian bytes are `data[start..end]`,
/// at most 8 of them.
pub fn read_le_upto8(data: &[u8], start: usize, end: usize) -> (x: u64)
    requires
        start <= end <= data@.len(),
        end - start <= 8,
    ensures
        x as nat == le_value(data@.subrange(start as int, end as int)),
{
    let mut x: u64 = 0;
    let mut i: usize = end;
    proof {
        assert(data@.subrange(end as int, end as int) =~= Seq::<u8>::empty());
    }
    while i > start
        invariant
            start <= i <= end,
            end <= data@.len(),
            end <= data.len(),
            end - start <= 8,
            x as nat == le_value(data@.subrange(i as int, end as int)),
        decreases i - start,
    {
        proof {
            let s = data@.subrange(i - 1, end as int);
            assert(s.drop_first() =~= data@.subrange(i as int, end as int));
            lemma_le_value_bound(data@.subrange(i as int, end as int));
            lemma_pow256_upto7(end - i);
        }
        i -= 1;
        x = data[i] as u64 + 256 * x;
    }
    x
}

proof fn lemma_pow256_upto7(n: int)
    requires
        0 <= n <= 7,
    ensures
        pow256(n as nat) <= 0x100_0000_0000_0000,
{
    reveal_with_fuel(pow256, 8);
}

/// `256^4 = 2^32` and `256^8 = 2^64`.
pub proof fn lemma_pow256_4_8()
    ensures
        pow256(4) == 0x1_0000_0000,
        pow256(8) == 0x1_0000_0000_0000_0000,
{
    reveal_with_fuel(pow256, 9);
}

/// Encoding keeps only the lowest `8 * n` bits.
pub proof fn lemma_le_bytes_mod(x: nat, n: nat)
    ensures
        le_bytes(x % pow256(n), n) == le_bytes(x, n),
    decreases n,
{
    if n > 0 {
        let p = pow256((n - 1) as nat);
        lemma_pow256_pos((n - 1) as nat);
        assert(pow256(n) == 256 * p);
        let y = x % pow256(n);
        vstd::arithmetic::div_mod::lemma_mod_mod(x as int, 256, p as int);
        vstd::arithmetic::div_mod::lemma_mod_breakdown(x as int, 256, p as int);
        let q = (x / 256) % p;
        assert(y == 256 * q + x % 256);
        assert(y % 256 == x % 256);
        assert(y / 256 == q);
        lemma_le_bytes_mod(x / 256, (n - 1) as nat);
    }
}

/// Appends the 4 little-endian bytes of a length (its lowest 32 bits).
pub fn push_len_le(buf: &mut Vec<u8>, n: usize)
    ensures
        final(buf)@ == old(buf)@ + le_bytes(n as nat, 4),
{
    let low = ((n as u64) % 0x1_0000_0000u64) as u32;
    push_u32_le(buf, low);
    proof {
        lemma_pow256_4_8();
        lemma_le_bytes_mod(n as nat, 4);
    }
}

/// Little-endian means the first byte is the lowest: one byte is its own
/// value, and the bytes that follow count `256^n` times as much, `n` being
/// the number of bytes before them.
pub proof fn law_le_value_concat(s: Seq<u8>, t: Seq<u8>)
    ensures
        le_value(s + t) == le_value(s) + pow256(s.len()) * le_value(t),
        s.len() == 1 ==> le_value(s) == s[0] as nat,
    decreases s.len(),
{
    if s.len() == 1 {
        assert(s.drop_first() =~= Seq::<u8>::empty());
    }
    if s.len() > 0 {
        law_le_value_concat(s.drop_first(), t);
        assert((s + t).drop_first() =~= s.drop_first() + t);
        let a = le_value(s.drop_first());
        let p = pow256((s.len() - 1) as nat);
        let v = le_value(t);
        assert(256 * (a + p * v) == 256 * a + (256 * p) * v) by (nonlinear_arith);
        assert((s + t)[0] == s[0]);
        assert(le_value(s + t) == s[0] as nat + 256 * le_value(s.drop_first() + t));
        assert(le_value(s) == s[0] as nat + 256 * a);
        assert(pow256(s.len()) == 256 * p);
        let x = s[0] as nat;
        let lst = le_value(s + t);
        let ls = le_value(s);
        let pw = pow256(s.len());
        assert(lst == ls + pw * v) by (nonlinear_arith)
            requires
                lst == x + 256 * (a + p * v),
                ls == x + 256 * a,
                pw == 256 * p,
        ;
        assert(le_value(s + t) == le_value(s) + pow256(s.len()) * le_value(t));
    } else {
        assert(s + t =~= t);
        assert(pow256(0) == 1);
        assert(le_value(s) == 0);
    }
}

} // verus!
