//! Hash values, the combining function that every level of the tree shares,
//! and the hashes of empty subtrees.
use decaf377::Fq;
use vstd::prelude::*;
use vstd::std_specs::cmp::PartialEqSpecImpl;

verus! {

/// The greatest height in the tree: three tiers of eight levels each.
pub const MAX_HEIGHT: u8 = 24;

/// The result of `poseidon377::hash_1`: the canonical little-endian encoding
/// of the hash of one field element under a domain separator, each of the two
/// given by the little-endian bytes that are reduced to it.
pub uninterp spec fn poseidon_hash_1(domain: Seq<u8>, value: Seq<u8>) -> Seq<u8>;

/// The result of `poseidon377::hash_4`: the canonical little-endian encoding
/// of the hash of four field elements under a domain separator, each of the
/// five given by the little-endian bytes that are reduced to it.
pub uninterp spec fn poseidon_hash_4(
    domain: Seq<u8>,
    a: Seq<u8>,
    b: Seq<u8>,
    c: Seq<u8>,
    d: Seq<u8>,
) -> Seq<u8>;

/// Calls `poseidon377::hash_1`. Each argument is read as a little-endian
/// number and reduced modulo the field's order; the result is the canonical
/// encoding of the hash. The call has no other input, so equal arguments give
/// equal results: the contract names that result and claims nothing else.
#[verifier::external_body]
fn poseidon_1(domain: &[u8; 32], value: &[u8; 32]) -> (out: [u8; 32])
    ensures
        out@ == poseidon_hash_1(domain@, value@),
{
    let domain = Fq::from_le_bytes_mod_order(domain);
    poseidon377::hash_1(&domain, Fq::from_le_bytes_mod_order(value)).to_bytes()
}

/// Calls `poseidon377::hash_4`. Each argument is read as a little-endian
/// number and reduced modulo the field's order; the result is the canonical
/// encoding of the hash. The call has no other input, so equal arguments give
/// equal results: the contract names that result and claims nothing else.
#[verifier::external_body]
fn poseidon_4(domain: &[u8; 32], a: &[u8; 32], b: &[u8; 32], c: &[u8; 32], d: &[u8; 32]) -> (out:
    [u8; 32])
    ensures
        out@ == poseidon_hash_4(domain@, a@, b@, c@, d@),
{
    let domain = Fq::from_le_bytes_mod_order(domain);
    let children = (
        Fq::from_le_bytes_mod_order(a),
        Fq::from_le_bytes_mod_order(b),
        Fq::from_le_bytes_mod_order(c),
        Fq::from_le_bytes_mod_order(d),
    );
    poseidon377::hash_4(&domain, children).to_bytes()
}

/// The domain separator for hashes at `height`: the height in the first byte,
/// the letters `tct` in the next three, and zeros after them.
pub open spec fn domain(height: nat) -> Seq<u8> {
    Seq::new(
        32,
        |i: int|
            if i == 0 {
                height as u8
            } else if i == 1 || i == 3 {
                0x74u8
            } else if i == 2 {
                0x63u8
            } else {
                0u8
            },
    )
}

/// The hash of a node at `height` whose four children hash to `a`, `b`, `c`
/// and `d`, from left to right.
pub open spec fn node_digest(height: nat, a: Seq<u8>, b: Seq<u8>, c: Seq<u8>, d: Seq<u8>) -> Seq<
    u8,
> {
    poseidon_hash_4(domain(height), a, b, c, d)
}

/// The hash of a commitment, as it stands in a leaf.
pub open spec fn item_digest(commitment: Seq<u8>) -> Seq<u8> {
    poseidon_hash_1(domain(0), commitment)
}

/// The hash of a subtree of the given height that holds nothing: zeros for an
/// absent leaf, and above that the hash of four empty children.
pub open spec fn empty_digest(height: nat) -> Seq<u8>
    decreases height,
{
    if height == 0 {
        Seq::new(32, |i: int| 0u8)
    } else {
        let below = empty_digest((height - 1) as nat);
        node_digest(height, below, below, below, below)
    }
}

fn domain_bytes(height: u8) -> (out: [u8; 32])
    ensures
        out@ == domain(height as nat),
{
    let out = [
        height, 0x74, 0x63, 0x74, 0, 0, 0, 0, 0, 0, 0, 0, 0, 0, 0, 0,
        0, 0, 0, 0, 0, 0, 0, 0, 0, 0, 0, 0, 0, 0, 0, 0,
    ];
    assert(out@ =~= domain(height as nat));
    out
}

fn same_bytes(a: &[u8; 32], b: &[u8; 32]) -> (same: bool)
    ensures
        same == (a@ == b@),
{
    let mut i: usize = 0;
    while i < 32
        invariant
            i <= 32,
            forall|j: int| 0 <= j < i ==> a@[j] == b@[j],
        decreases 32 - i,
    {
        if a[i] != b[i] {
            return false;
        }
        i += 1;
    }
    assert(a@ =~= b@);
    true
}

/// A hash: thirty-two bytes.
#[derive(Clone, Copy, Debug)]
pub struct Hash {
    pub bytes: [u8; 32],
}

impl View for Hash {
    type V = Seq<u8>;

    open spec fn view(&self) -> Seq<u8> {
        self.bytes@
    }
}

impl Hash {
    /// The hash that holds the given bytes.
    pub open spec fn of(digest: Seq<u8>) -> Hash {
        choose|h: Hash| h@ == digest
    }

    /// A hash is known by its bytes: two hashes with the same bytes are one.
    pub proof fn lemma_of(self)
        ensures
            Hash::of(self@) == self,
    {
        let other = Hash::of(self@);
        assert(other@ == self@);
        assert(other.bytes =~= self.bytes);
    }
}

impl PartialEq for Hash {
    fn eq(&self, other: &Hash) -> (same: bool) {
        same_bytes(&self.bytes, &other.bytes)
    }
}

impl Eq for Hash {

}

impl PartialEqSpecImpl for Hash {
    open spec fn obeys_eq_spec() -> bool {
        true
    }

    open spec fn eq_spec(&self, other: &Hash) -> bool {
        self@ == other@
    }
}

/// A note commitment: thirty-two bytes, the unit that the tree stores.
#[derive(Clone, Copy, Debug)]
pub struct Commitment {
    pub bytes: [u8; 32],
}

impl View for Commitment {
    type V = Seq<u8>;

    open spec fn view(&self) -> Seq<u8> {
        self.bytes@
    }
}

impl Commitment {
    /// The commitment that holds the given bytes.
    pub open spec fn of(bytes: Seq<u8>) -> Commitment {
        choose|c: Commitment| c@ == bytes
    }

    /// A commitment is known by its bytes: two commitments with the same
    /// bytes are one.
    pub proof fn lemma_of(self)
        ensures
            Commitment::of(self@) == self,
    {
        let other = Commitment::of(self@);
        assert(other@ == self@);
        assert(other.bytes =~= self.bytes);
    }
}

impl PartialEq for Commitment {
    fn eq(&self, other: &Commitment) -> (same: bool) {
        same_bytes(&self.bytes, &other.bytes)
    }
}

impl Eq for Commitment {

}

impl PartialEqSpecImpl for Commitment {
    open spec fn obeys_eq_spec() -> bool {
        true
    }

    open spec fn eq_spec(&self, other: &Commitment) -> bool {
        self@ == other@
    }
}

/// What can stand in a leaf: a value with a hash of its own.
pub trait GetHash {
    /// Whether the value is well formed.
    spec fn wf(&self) -> bool;

    /// The hash of the value.
    spec fn digest(&self) -> Seq<u8>;

    fn hash(&self) -> (h: Hash)
        requires
            self.wf(),
        ensures
            h@ == self.digest(),
    ;

    /// Finds out whether the value is well formed, for a value that comes
    /// from outside.
    fn check(&self, padding: &Padding) -> (ok: bool)
        requires
            padding.wf(),
        ensures
            ok == self.wf(),
    ;
}

impl GetHash for Commitment {
    open spec fn wf(&self) -> bool {
        true
    }

    open spec fn digest(&self) -> Seq<u8> {
        item_digest(self@)
    }

    fn hash(&self) -> (h: Hash) {
        Hash { bytes: poseidon_1(&domain_bytes(0), &self.bytes) }
    }

    fn check(&self, padding: &Padding) -> (ok: bool) {
        true
    }
}

/// The combining function: the hash of a node at `height` from the hashes of
/// its four children, left to right.
pub fn hash(height: u8, children: &[Hash; 4]) -> (h: Hash)
    ensures
        h@ == node_digest(height as nat, children[0]@, children[1]@, children[2]@, children[3]@),
{
    Hash {
        bytes: poseidon_4(
            &domain_bytes(height),
            &children[0].bytes,
            &children[1].bytes,
            &children[2].bytes,
            &children[3].bytes,
        ),
    }
}

fn zero_hash() -> (h: Hash)
    ensures
        h@ == empty_digest(0),
{
    let h = Hash {
        bytes: [
            0, 0, 0, 0, 0, 0, 0, 0, 0, 0, 0, 0, 0, 0, 0, 0,
            0, 0, 0, 0, 0, 0, 0, 0, 0, 0, 0, 0, 0, 0, 0, 0,
        ],
    };
    assert(h@ =~= empty_digest(0));
    h
}

/// The hash of an empty subtree of the given height.
pub fn empty_hash(height: u8) -> (h: Hash)
    ensures
        h@ == empty_digest(height as nat),
{
    let mut h = zero_hash();
    let mut level: u8 = 0;
    while level < height
        invariant
            level <= height,
            h@ == empty_digest(level as nat),
        decreases height - level,
    {
        level += 1;
        h = hash(level, &[h, h, h, h]);
    }
    h
}

/// The hashes of the empty subtrees of every height up to `MAX_HEIGHT`,
/// computed once and then looked up.
#[derive(Clone, Debug)]
pub struct Padding {
    table: Vec<Hash>,
}

impl Padding {
    /// Whether the table holds the hash of the empty subtree of each height.
    pub closed spec fn wf(&self) -> bool {
        &&& self.table.len() == MAX_HEIGHT + 1
        &&& forall|height: int|
            0 <= height <= MAX_HEIGHT ==> (#[trigger] self.table@[height])@ == empty_digest(
                height as nat,
            )
    }

    /// Computes the hash of the empty subtree of every height.
    pub fn new() -> (padding: Padding)
        ensures
            padding.wf(),
    {
        let mut h = zero_hash();
        let mut table: Vec<Hash> = Vec::new();
        table.push(h);
        let mut level: u8 = 0;
        while level < MAX_HEIGHT
            invariant
                level <= MAX_HEIGHT,
                table.len() == level + 1,
                h@ == empty_digest(level as nat),
                forall|height: int|
                    0 <= height <= level ==> (#[trigger] table@[height])@ == empty_digest(
                        height as nat,
                    ),
            decreases MAX_HEIGHT - level,
        {
            level += 1;
            h = hash(level, &[h, h, h, h]);
            table.push(h);
        }
        Padding { table }
    }

    /// Finds out whether the table holds what it should, for a table that
    /// comes from outside.
    pub fn check(&self) -> (ok: bool)
        ensures
            ok == self.wf(),
    {
        if self.table.len() != MAX_HEIGHT as usize + 1 {
            return false;
        }
        let mut expected = zero_hash();
        let mut level: u8 = 0;
        loop
            invariant
                level <= MAX_HEIGHT,
                self.table.len() == MAX_HEIGHT + 1,
                expected@ == empty_digest(level as nat),
                forall|height: int|
                    0 <= height < level ==> (#[trigger] self.table@[height])@ == empty_digest(
                        height as nat,
                    ),
            decreases MAX_HEIGHT - level,
        {
            if self.table[level as usize] != expected {
                return false;
            }
            if level == MAX_HEIGHT {
                return true;
            }
            level += 1;
            expected = hash(level, &[expected, expected, expected, expected]);
        }
    }

    /// The hash of an empty subtree of the given height.
    pub fn get(&self, height: u8) -> (h: Hash)
        requires
            self.wf(),
        ensures
            h@ == empty_digest(height as nat),
    {
        if height <= MAX_HEIGHT {
            self.table[height as usize]
        } else {
            empty_hash(height)
        }
    }
}

} // verus!
