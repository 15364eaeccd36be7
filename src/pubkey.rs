use vstd::prelude::*;

verus! {

/// A 32-byte account address, held as two big-endian halves: `hi` is bytes
/// 0..16 and `lo` is bytes 16..32, so that comparing `(hi, lo)` compares the
/// raw bytes lexicographically.
#[derive(Clone, Copy, Debug, PartialEq, Eq, Hash, Structural)]
pub struct Pubkey {
    pub hi: u128,
    pub lo: u128,
}

/// Byte order of two keys: `a` sorts strictly before `b`.
pub open spec fn key_lt(a: Pubkey, b: Pubkey) -> bool {
    a.hi < b.hi || (a.hi == b.hi && a.lo < b.lo)
}

impl Pubkey {
    /// Builds a key from its two big-endian halves.
    pub fn new(hi: u128, lo: u128) -> (r: Pubkey)
        ensures
            r.hi == hi,
            r.lo == lo,
    {
        Pubkey { hi, lo }
    }

    /// Whether `self` sorts strictly before `other` by its bytes.
    pub fn less_than(&self, other: &Pubkey) -> (r: bool)
        ensures
            r == key_lt(*self, *other),
    {
        self.hi < other.hi || (self.hi == other.hi && self.lo < other.lo)
    }

    /// The 32 bytes of the key, most significant first.
    pub open spec fn bytes(self) -> Seq<u8> {
        Seq::new(32, |i: int| if i < 16 {
            (self.hi >> ((8 * (15 - i)) as u128)) as u8
        } else {
            (self.lo >> ((8 * (31 - i)) as u128)) as u8
        })
    }

    /// The 32 bytes of the key, most significant first.
    pub fn to_bytes(&self) -> (r: Vec<u8>)
        ensures
            r@ == self.bytes(),
    {
        let mut r: Vec<u8> = Vec::new();
        let mut i: u128 = 0;
        while i < 32
            invariant
                i <= 32,
                r@.len() == i,
                forall|j: int| 0 <= j < i ==> r@[j] == #[trigger] self.bytes()[j],
            decreases 32 - i,
        {
            if i < 16 {
                r.push((self.hi >> (8 * (15 - i))) as u8);
            } else {
                r.push((self.lo >> (8 * (31 - i))) as u8);
            }
            i = i + 1;
        }
        proof {
            assert(r@ =~= self.bytes());
        }
        r
    }

    /// Whether the two keys are the same address.
    pub fn same(&self, other: &Pubkey) -> (r: bool)
        ensures
            r == (*self == *other),
    {
        self.hi == other.hi && self.lo == other.lo
    }
}

} // verus!
