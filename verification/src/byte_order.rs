//! Little- and big-endian readings of byte strings, with the exec helpers that
//! write and read fixed-width little-endian integers.
use vstd::prelude::*;

verus! {

/// `256^n`: one more than the largest value that `n` bytes hold.
pub open spec fn byte_bound(n: nat) -> nat
    decreases n,
{
    if n == 0 {
        1
    } else {
        256 * byte_bound((n - 1) as nat)
    }
}

/// The value of `s` read as a little-endian unsigned integer.
pub open spec fn le_value(s: Seq<u8>) -> nat
    decreases s.len(),
{
    if s.len() == 0 {
        0
    } else {
        s[0] as nat + 256 * le_value(s.skip(1))
    }
}

/// The value of `s` read as a big-endian unsigned integer.
pub open spec fn be_value(s: Seq<u8>) -> nat
    decreases s.len(),
{
    if s.len() == 0 {
        0
    } else {
        be_value(s.drop_last()) * 256 + s.last() as nat
    }
}

/// The `n` low bytes of `v`, least significant first.
pub open spec fn le_bytes(v: nat, n: nat) -> Seq<u8>
    decreases n,
{
    if n == 0 {
        Seq::empty()
    } else {
        seq![(v % 256) as u8] + le_bytes(v / 256, (n - 1) as nat)
    }
}

/// Every byte of `s` is zero.
pub open spec fn all_zero(s: Seq<u8>) -> bool {
    forall|i: int| 0 <= i < s.len() ==> s[i] == 0
}

pub proof fn lemma_byte_bound_values()
    ensures
        byte_bound(1) == 0x100,
        byte_bound(2) == 0x1_0000,
        byte_bound(4) == 0x1_0000_0000,
        byte_bound(8) == 0x1_0000_0000_0000_0000,
{
    reveal_with_fuel(byte_bound, 9);
}

pub proof fn lemma_le_bytes_len(v: nat, n: nat)
    ensures
        le_bytes(v, n).len() == n,
    decreases n,
{
    if n > 0 {
        lemma_le_bytes_len(v / 256, (n - 1) as nat);
    }
}

pub proof fn lemma_byte_bound_pos(n: nat)
    ensures
        byte_bound(n) > 0,
    decreases n,
{
    if n > 0 {
        lemma_byte_bound_pos((n - 1) as nat);
    }
}

/// The bytes of a value are its base-256 digits, least significant first:
/// byte `i` is `(v / 256^i) % 256`.
pub proof fn lemma_le_bytes_index(v: nat, n: nat, i: nat)
    requires
        i < n,
    ensures
        le_bytes(v, n)[i as int] as nat == (v / byte_bound(i)) % 256,
    decreases n,
{
    lemma_le_bytes_len(v / 256, (n - 1) as nat);
    let rest = le_bytes(v / 256, (n - 1) as nat);
    assert(le_bytes(v, n) == seq![(v % 256) as u8] + rest);
    if i == 0 {
        assert(le_bytes(v, n)[0] == (v % 256) as u8);
        assert(byte_bound(0) == 1);
        assert(v / 1 == v);
    } else {
        assert(le_bytes(v, n)[i as int] == rest[i - 1]);
        assert(byte_bound(i) == 256 * byte_bound((i - 1) as nat));
        lemma_le_bytes_index(v / 256, (n - 1) as nat, (i - 1) as nat);
        lemma_byte_bound_pos((i - 1) as nat);
        vstd::arithmetic::div_mod::lemma_div_denominator(
            v as int,
            256,
            byte_bound((i - 1) as nat) as int,
        );
        assert((v / 256) / byte_bound((i - 1) as nat) == v / byte_bound(i));
    }
}

/// The first byte is the least significant: a little-endian reading leaves
/// it as the remainder by 256.
pub proof fn lemma_le_value_first_byte(s: Seq<u8>)
    requires
        s.len() > 0,
    ensures
        le_value(s) % 256 == s[0] as nat,
        le_value(s) / 256 == le_value(s.skip(1)),
{
}

/// A byte appended at the end is the most significant.
pub proof fn lemma_le_value_push(s: Seq<u8>, b: u8)
    ensures
        le_value(s.push(b)) == le_value(s) + b as nat * byte_bound(s.len()),
    decreases s.len(),
{
    if s.len() > 0 {
        assert(s.push(b).skip(1) =~= s.skip(1).push(b));
        assert(s.push(b)[0] == s[0]);
        lemma_le_value_push(s.skip(1), b);
        assert(le_value(s.push(b)) == s[0] as nat + 256 * le_value(s.skip(1).push(b)));
        let x = le_value(s.skip(1));
        let y = b as nat * byte_bound((s.len() - 1) as nat);
        assert(le_value(s.skip(1).push(b)) == x + y);
        assert(le_value(s) == s[0] as nat + 256 * x);
        assert(256 * (x + y) == 256 * x + 256 * y);
        let bb1 = byte_bound((s.len() - 1) as nat);
        let bb = byte_bound(s.len());
        let bn = b as nat;
        assert(bb == 256 * bb1);
        assert(256 * (bn * bb1) == bn * bb) by (nonlinear_arith)
            requires
                bb == 256 * bb1,
        ;
        assert(le_value(s.push(b)) == le_value(s) + bn * bb);
    } else {
        assert(s.push(b).skip(1) =~= Seq::<u8>::empty());
        assert(s.push(b)[0] == b);
        assert(le_value(s.push(b).skip(1)) == 0);
        assert(le_value(s) == 0);
        assert(byte_bound(0) == 1);
        assert(le_value(s.push(b)) == b as nat);
    }
}

/// Reading back the bytes of a value that fits gives the value.
pub proof fn lemma_le_value_of_le_bytes(v: nat, n: nat)
    requires
        v < byte_bound(n),
    ensures
        le_value(le_bytes(v, n)) == v,
    decreases n,
{
    if n > 0 {
        let s = le_bytes(v, n);
        lemma_le_bytes_len(v / 256, (n - 1) as nat);
        assert(s.skip(1) =~= le_bytes(v / 256, (n - 1) as nat));
        lemma_le_value_of_le_bytes(v / 256, (n - 1) as nat);
    }
}

/// The value read from `s` fits in `s.len()` bytes.
pub proof fn lemma_le_value_bound(s: Seq<u8>)
    ensures
        le_value(s) < byte_bound(s.len()),
    decreases s.len(),
{
    if s.len() > 0 {
        lemma_le_value_bound(s.skip(1));
    }
}

/// Writing back the value read from `s` gives `s`.
pub proof fn lemma_le_bytes_of_le_value(s: Seq<u8>)
    ensures
        le_bytes(le_value(s), s.len()) == s,
    decreases s.len(),
{
    if s.len() > 0 {
        let v = le_value(s);
        lemma_le_bytes_of_le_value(s.skip(1));
        assert(v % 256 == s[0] as nat);
        assert(v / 256 == le_value(s.skip(1)));
        lemma_le_bytes_len(v / 256, (s.len() - 1) as nat);
        assert(le_bytes(v, s.len()) =~= s);
    }
}

/// A little-endian reading is the big-endian reading of the reversed bytes.
pub proof fn lemma_be_value_of_reverse(s: Seq<u8>)
    ensures
        be_value(s.reverse()) == le_value(s),
    decreases s.len(),
{
    if s.len() > 0 {
        let r = s.reverse();
        lemma_be_value_of_reverse(s.skip(1));
        assert(r.drop_last() =~= s.skip(1).reverse());
    }
}

/// A big-endian reading is zero exactly when every byte is zero.
pub proof fn lemma_be_value_zero(s: Seq<u8>)
    ensures
        be_value(s) == 0 <==> all_zero(s),
    decreases s.len(),
{
    if s.len() > 0 {
        lemma_be_value_zero(s.drop_last());
        if all_zero(s) {
            assert(all_zero(s.drop_last()));
        }
        if be_value(s) == 0 {
            assert forall|i: int| 0 <= i < s.len() implies s[i] == 0 by {
                if i < s.len() - 1 {
                    assert(s.drop_last()[i] == s[i]);
                }
            }
        }
    }
}

/// Appends the `n` low bytes of `v`, least significant first.
pub fn push_le(out: &mut Vec<u8>, v: u64, n: usize)
    ensures
        final(out)@ == old(out)@ + le_bytes(v as nat, n as nat),
{
    let mut cur: u64 = v;
    let mut i: usize = 0;
    while i < n
        invariant
            i <= n,
            out@ + le_bytes(cur as nat, (n - i) as nat) == old(out)@ + le_bytes(v as nat, n as nat),
        decreases n - i,
    {
        let ghost before = out@;
        let ghost rest = le_bytes(cur as nat / 256, (n - i - 1) as nat);
        out.push((cur % 256) as u8);
        assert(before + le_bytes(cur as nat, (n - i) as nat) =~= out@ + rest);
        cur = cur / 256;
        i = i + 1;
    }
    assert(le_bytes(cur as nat, 0) =~= Seq::<u8>::empty());
    assert(out@ =~= out@ + le_bytes(cur as nat, 0));
}

/// Reads `n` bytes at `pos` as a little-endian integer.
pub fn read_le(bytes: &[u8], pos: usize, n: usize) -> (v: u64)
    requires
        n <= 8,
        pos + n <= bytes@.len(),
    ensures
        v as nat == le_value(bytes@.subrange(pos as int, pos + n)),
{
    let ghost s = bytes@.subrange(pos as int, pos + n);
    let len = bytes.len();
    let mut acc: u64 = 0;
    let mut k: usize = n;
    proof {
        lemma_byte_bound_values();
    }
    while k > 0
        invariant
            k <= n <= 8,
            pos + n <= bytes@.len(),
            bytes@.len() == len,
            s == bytes@.subrange(pos as int, pos + n),
            acc as nat == le_value(s.subrange(k as int, n as int)),
            byte_bound(8) == 0x1_0000_0000_0000_0000,
        decreases k,
    {
        let ghost tail = s.subrange(k as int, n as int);
        let ghost longer = s.subrange(k - 1, n as int);
        assert(longer.skip(1) =~= tail);
        proof {
            lemma_le_value_bound(tail);
            lemma_byte_bound_mono(tail.len(), 7);
        }
        acc = acc * 256 + bytes[pos + (k - 1)] as u64;
        k = k - 1;
    }
    assert(s.subrange(0, n as int) =~= s);
    acc
}

pub proof fn lemma_byte_bound_mono(a: nat, b: nat)
    requires
        a <= b,
    ensures
        byte_bound(a) <= byte_bound(b),
    decreases b,
{
    if a < b {
        lemma_byte_bound_mono(a, (b - 1) as nat);
    }
}

} // verus!
