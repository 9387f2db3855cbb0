use vstd::prelude::*;

verus! {

/// Number of bits in an address, and so the depth of the account tree.
pub const TREE_DEPTH: usize = 256;

/// A 256-bit account address, most significant byte first.
#[derive(Clone, Copy, Debug, PartialEq, Eq)]
pub struct Address {
    pub bytes: [u8; 32],
}

/// The record held at an account's leaf.
#[derive(Clone, Copy, Debug, PartialEq, Eq)]
pub struct Account {
    pub balance: u64,
    pub nonce: u64,
}

/// Bit `i` of an address, counted from the most significant bit.
pub open spec fn bit_at(bytes: Seq<u8>, i: int) -> bool {
    ((bytes[i / 8] >> ((7 - i % 8) as u8)) & 1u8) == 1u8
}

/// The path from the root to an address's leaf: one bit per level, `true`
/// meaning the right child.
pub open spec fn path_of(a: Address) -> Seq<bool> {
    Seq::new(TREE_DEPTH as nat, |i: int| bit_at(a.bytes@, i))
}

/// The `n` least significant bytes of `v`, least significant first.
pub open spec fn le_bytes(v: nat, n: nat) -> Seq<u8>
    decreases n,
{
    if n == 0 {
        Seq::empty()
    } else {
        seq![(v % 256) as u8] + le_bytes(v / 256, (n - 1) as nat)
    }
}

/// The bytes a leaf's hash is taken over: balance, then nonce, each as eight
/// little-endian bytes.
pub open spec fn account_bytes(a: Account) -> Seq<u8> {
    le_bytes(a.balance as nat, 8) + le_bytes(a.nonce as nat, 8)
}

impl Address {
    /// The address whose big-endian bytes are given.
    pub fn from_bytes(bytes: [u8; 32]) -> (r: Address)
        ensures
            r.bytes@ == bytes@,
    {
        Address { bytes }
    }

    /// Which child to descend into at `depth` on the way to this address's leaf.
    pub fn bit(&self, depth: usize) -> (r: bool)
        requires
            depth < TREE_DEPTH,
        ensures
            r == path_of(*self)[depth as int],
    {
        let byte: u8 = self.bytes[depth / 8];
        let shift: u8 = (7 - depth % 8) as u8;
        ((byte >> shift) & 1u8) == 1u8
    }
}

/// Appends the `n` least significant bytes of `v` to `out`, least significant first.
fn push_le_bytes(out: &mut Vec<u8>, v: u64, n: usize)
    ensures
        final(out)@ == old(out)@ + le_bytes(v as nat, n as nat),
{
    let mut x: u64 = v;
    let mut k: usize = 0;
    while k < n
        invariant
            k <= n,
            out@ + le_bytes(x as nat, (n - k) as nat) == old(out)@ + le_bytes(v as nat, n as nat),
        decreases n - k,
    {
        let ghost before = out@;
        out.push((x % 256) as u8);
        assert(le_bytes(x as nat, (n - k) as nat) == seq![(x % 256) as u8] + le_bytes(
            (x / 256) as nat,
            (n - k - 1) as nat,
        ));
        assert(out@ + le_bytes((x / 256) as nat, (n - k - 1) as nat) =~= before + le_bytes(
            x as nat,
            (n - k) as nat,
        ));
        x = x / 256;
        k = k + 1;
    }
    assert(le_bytes(x as nat, 0) =~= Seq::<u8>::empty());
    assert(out@ + Seq::<u8>::empty() =~= out@);
}

impl Account {
    /// The bytes this record's leaf hash is taken over.
    pub fn to_bytes(&self) -> (r: Vec<u8>)
        ensures
            r@ == account_bytes(*self),
    {
        let mut out: Vec<u8> = Vec::new();
        push_le_bytes(&mut out, self.balance, 8);
        push_le_bytes(&mut out, self.nonce, 8);
        assert(out@ =~= account_bytes(*self));
        out
    }
}


proof fn lemma_byte_from_bits(x: u8, y: u8)
    requires
        forall|j: u8| j < 8 ==> #[trigger] ((x >> j) & 1u8) == ((y >> j) & 1u8),
    ensures
        x == y,
{
    assert(((x >> 0u8) & 1u8) == ((y >> 0u8) & 1u8));
    assert(((x >> 1u8) & 1u8) == ((y >> 1u8) & 1u8));
    assert(((x >> 2u8) & 1u8) == ((y >> 2u8) & 1u8));
    assert(((x >> 3u8) & 1u8) == ((y >> 3u8) & 1u8));
    assert(((x >> 4u8) & 1u8) == ((y >> 4u8) & 1u8));
    assert(((x >> 5u8) & 1u8) == ((y >> 5u8) & 1u8));
    assert(((x >> 6u8) & 1u8) == ((y >> 6u8) & 1u8));
    assert(((x >> 7u8) & 1u8) == ((y >> 7u8) & 1u8));
    assert(x == y) by (bit_vector)
        requires
            ((x >> 0u8) & 1u8) == ((y >> 0u8) & 1u8),
            ((x >> 1u8) & 1u8) == ((y >> 1u8) & 1u8),
            ((x >> 2u8) & 1u8) == ((y >> 2u8) & 1u8),
            ((x >> 3u8) & 1u8) == ((y >> 3u8) & 1u8),
            ((x >> 4u8) & 1u8) == ((y >> 4u8) & 1u8),
            ((x >> 5u8) & 1u8) == ((y >> 5u8) & 1u8),
            ((x >> 6u8) & 1u8) == ((y >> 6u8) & 1u8),
            ((x >> 7u8) & 1u8) == ((y >> 7u8) & 1u8),
    ;
}

proof fn lemma_bit_of_one(x: u8)
    ensures
        ((x & 1u8) == 1u8) || ((x & 1u8) == 0u8),
{
    assert(((x & 1u8) == 1u8) || ((x & 1u8) == 0u8)) by (bit_vector);
}

/// Distinct addresses lead to distinct leaves: equal paths come only from
/// equal addresses.
pub proof fn lemma_path_injective(a: Address, b: Address)
    requires
        path_of(a) == path_of(b),
    ensures
        a == b,
{
    assert forall|k: int| 0 <= k < 32 implies a.bytes@[k] == b.bytes@[k] by {
        let x = a.bytes@[k];
        let y = b.bytes@[k];
        assert forall|j: u8| j < 8 implies #[trigger] ((x >> j) & 1u8) == ((y >> j) & 1u8) by {
            let i = 8 * k + (7 - j);
            assert(i / 8 == k);
            assert(i % 8 == 7 - j);
            assert(0 <= i < TREE_DEPTH);
            assert(path_of(a)[i] == bit_at(a.bytes@, i));
            assert(path_of(b)[i] == bit_at(b.bytes@, i));
            assert(((7 - i % 8) as u8) == j);
            assert(bit_at(a.bytes@, i) == (((x >> j) & 1u8) == 1u8));
            assert(bit_at(b.bytes@, i) == (((y >> j) & 1u8) == 1u8));
            lemma_bit_of_one(x >> j);
            lemma_bit_of_one(y >> j);
        }
        lemma_byte_from_bits(x, y);
    }
    assert(a.bytes =~= b.bytes);
}

} // verus!
