//! Fixed-width unsigned integers as bytes, in either byte order.
use vstd::prelude::*;
use vstd::arithmetic::div_mod::lemma_mod_breakdown;

verus! {

/// `256` to the power `n`: one more than the largest value `n` bytes hold.
pub open spec fn byte_bound(n: nat) -> nat
    decreases n,
{
    if n == 0 {
        1
    } else {
        256 * byte_bound((n - 1) as nat)
    }
}

/// The number whose little-endian bytes are `b`.
pub open spec fn le_value(b: Seq<u8>) -> nat
    decreases b.len(),
{
    if b.len() == 0 {
        0
    } else {
        b[0] as nat + 256 * le_value(b.drop_first())
    }
}

/// The `n` low bytes of `x`, least significant first.
pub open spec fn le_bytes(x: nat, n: nat) -> Seq<u8>
    decreases n,
{
    if n == 0 {
        Seq::empty()
    } else {
        seq![(x % 256) as u8] + le_bytes(x / 256, (n - 1) as nat)
    }
}

/// Little-endian bytes put in the requested order.
pub open spec fn in_order(b: Seq<u8>, little_endian: bool) -> Seq<u8> {
    if little_endian {
        b
    } else {
        b.reverse()
    }
}

/// The `n` bytes that stand for `x` in the given byte order.
pub open spec fn uint_to_wire(x: nat, n: nat, little_endian: bool) -> Seq<u8> {
    in_order(le_bytes(x, n), little_endian)
}

/// The number that the bytes `b` stand for in the given byte order.
pub open spec fn uint_from_wire(b: Seq<u8>, little_endian: bool) -> nat {
    le_value(in_order(b, little_endian))
}

pub proof fn lemma_byte_bounds()
    ensures
        byte_bound(1) == 0x100,
        byte_bound(2) == 0x1_0000,
        byte_bound(4) == 0x1_0000_0000,
        byte_bound(8) == 0x1_0000_0000_0000_0000,
        byte_bound(16) == 0x1_0000_0000_0000_0000_0000_0000_0000_0000,
{
    reveal_with_fuel(byte_bound, 17);
}

proof fn lemma_le_bytes(x: nat, n: nat)
    ensures
        le_bytes(x, n).len() == n,
        le_value(le_bytes(x, n)) == x % byte_bound(n),
    decreases n,
{
    if n > 0 {
        let k = (n - 1) as nat;
        lemma_le_bytes(x / 256, k);
        assert(le_bytes(x, n).drop_first() =~= le_bytes(x / 256, k));
        lemma_byte_bound_pos(k);
        lemma_mod_breakdown(x as int, 256, byte_bound(k) as int);
    }
}

proof fn lemma_byte_bound_pos(n: nat)
    ensures
        byte_bound(n) > 0,
    decreases n,
{
    if n > 0 {
        lemma_byte_bound_pos((n - 1) as nat);
    }
}

proof fn lemma_le_value_bound(b: Seq<u8>)
    ensures
        le_value(b) < byte_bound(b.len()),
    decreases b.len(),
{
    if b.len() > 0 {
        lemma_le_value_bound(b.drop_first());
        let r = le_value(b.drop_first());
        let m = byte_bound(b.drop_first().len());
        assert(b[0] as nat + 256 * r < 256 * m) by (nonlinear_arith)
            requires
                b[0] < 256,
                r < m,
        ;
    }
}

proof fn lemma_reverse_reverse(b: Seq<u8>)
    ensures
        b.reverse().reverse() == b,
        b.reverse().len() == b.len(),
{
    assert(b.reverse().reverse() =~= b);
}

/// Reading back the bytes of `x` gives `x`, whatever follows them.
pub proof fn lemma_uint_round_trip(x: nat, n: nat, little_endian: bool, rest: Seq<u8>)
    requires
        x < byte_bound(n),
    ensures
        uint_to_wire(x, n, little_endian).len() == n,
        (uint_to_wire(x, n, little_endian) + rest).take(n as int) == uint_to_wire(x, n, little_endian),
        uint_from_wire(uint_to_wire(x, n, little_endian), little_endian) == x,
{
    lemma_le_bytes(x, n);
    lemma_reverse_reverse(le_bytes(x, n));
    let w = uint_to_wire(x, n, little_endian);
    assert((w + rest).take(n as int) =~= w);
    vstd::arithmetic::div_mod::lemma_small_mod(x, byte_bound(n));
}

/// The bytes of `b` in reverse order.
fn reversed(b: &Vec<u8>) -> (r: Vec<u8>)
    ensures
        r@ == b@.reverse(),
{
    let mut r: Vec<u8> = Vec::new();
    let mut i: usize = b.len();
    while i > 0
        invariant
            i <= b.len(),
            r@ =~= b@.reverse().take(b.len() - i),
        decreases i,
    {
        i = i - 1;
        r.push(b[i]);
        assert(r@ =~= b@.reverse().take(b.len() - i));
    }
    assert(b@.reverse().take(b.len() as int) =~= b@.reverse());
    r
}

/// The `n` bytes of `x` in the given byte order.
pub fn uint_to_bytes(x: u128, n: usize, little_endian: bool) -> (r: Vec<u8>)
    requires
        n <= 16,
        x < byte_bound(n as nat),
    ensures
        r@ == uint_to_wire(x as nat, n as nat, little_endian),
{
    let mut r: Vec<u8> = Vec::new();
    let mut v: u128 = x;
    let mut i: usize = 0;
    while i < n
        invariant
            i <= n,
            r@ + le_bytes(v as nat, (n - i) as nat) == le_bytes(x as nat, n as nat),
        decreases n - i,
    {
        let ghost before = r@;
        r.push((v % 256) as u8);
        proof {
            let k = (n - i - 1) as nat;
            assert(le_bytes(v as nat, (k + 1) as nat) == seq![(v as nat % 256) as u8] + le_bytes(
                v as nat / 256,
                k,
            ));
            assert(r@ + le_bytes(v as nat / 256, k) =~= before + le_bytes(v as nat, (k + 1) as nat));
        }
        v = v / 256;
        i = i + 1;
    }
    assert(r@ =~= le_bytes(x as nat, n as nat));
    if little_endian {
        r
    } else {
        reversed(&r)
    }
}

/// The number that the bytes `b` stand for in the given byte order.
pub fn uint_from_bytes(b: &Vec<u8>, little_endian: bool) -> (r: u128)
    requires
        b@.len() <= 16,
    ensures
        r as nat == uint_from_wire(b@, little_endian),
{
    let le: Vec<u8> = if little_endian {
        b.clone()
    } else {
        reversed(b)
    };
    assert(le@ == in_order(b@, little_endian));
    let mut acc: u128 = 0;
    let mut i: usize = le.len();
    proof {
        lemma_byte_bounds();
    }
    while i > 0
        invariant
            i <= le.len(),
            le.len() <= 16,
            acc as nat == le_value(le@.skip(i as int)),
            byte_bound(16) == 0x1_0000_0000_0000_0000_0000_0000_0000_0000,
        decreases i,
    {
        let ghost tail = le@.skip(i as int);
        proof {
            lemma_le_value_bound(tail);
            lemma_byte_bound_mono(tail.len(), 15);
        }
        i = i - 1;
        assert(le@.skip(i as int).drop_first() =~= tail);
        assert(acc * 256 + le[i as int] < 0x1_0000_0000_0000_0000_0000_0000_0000_0000) by (nonlinear_arith)
            requires
                acc < byte_bound(tail.len()),
                byte_bound(tail.len()) <= byte_bound(15),
                byte_bound(15) * 256 == 0x1_0000_0000_0000_0000_0000_0000_0000_0000,
                le[i as int] < 256,
        ;
        acc = acc * 256 + le[i] as u128;
    }
    assert(le@.skip(0) =~= le@);
    acc
}

proof fn lemma_byte_bound_mono(a: nat, b: nat)
    requires
        a <= b,
    ensures
        byte_bound(a) <= byte_bound(b),
        byte_bound(15) * 256 == byte_bound(16),
    decreases b,
{
    if a < b {
        lemma_byte_bound_mono(a, (b - 1) as nat);
    }
    reveal_with_fuel(byte_bound, 2);
}

} // verus!
