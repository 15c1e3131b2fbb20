//! Reproducible randomness for the simulator: 32-byte seeds derived by
//! BLAKE3, and named ChaCha12 streams drawn from them.

use rand::RngCore;
use rand::SeedableRng;
use rand_chacha::ChaCha12Rng;
use vstd::prelude::*;

use crate::digest::{blake3_digest, blake3_hash, blake3_keyed, blake3_keyed_digest};

verus! {

/// A 32-byte seed.
#[derive(Clone, Copy, Debug, PartialEq, Eq, Hash)]
pub struct Seed(pub [u8; 32]);

/// The eight little-endian bytes of `v`.
pub open spec fn le_bytes(v: u64) -> Seq<u8> {
    Seq::new(8, |i: int| ((v >> (8 * i) as u64) & 0xff) as u8)
}

/// The bytes hashed to seed a run from a number: its little-endian bytes,
/// padded with zeros to 32.
pub open spec fn seed_material(v: u64) -> Seq<u8> {
    le_bytes(v) + Seq::new(24, |i: int| 0u8)
}

impl Seed {
    pub fn from_bytes(bytes: [u8; 32]) -> (seed: Self)
        ensures
            seed.0@ == bytes@,
    {
        Seed(bytes)
    }

    pub fn as_bytes(self) -> (bytes: [u8; 32])
        ensures
            bytes@ == self.0@,
    {
        self.0
    }

    /// The seed of a run numbered `value`: the BLAKE3 hash of `value`'s
    /// little-endian bytes padded with zeros to 32 bytes.
    pub fn from_u64(value: u64) -> (seed: Self)
        ensures
            seed.0@ == blake3_digest(seed_material(value)),
    {
        let mut bytes = [0u8; 32];
        let mut i: usize = 0;
        while i < 8
            invariant
                i <= 8,
                bytes@.len() == 32,
                forall|k: int| 0 <= k < i ==> bytes@[k] == ((value >> (8 * k) as u64) & 0xff) as u8,
                forall|k: int| 8 <= k < 32 ==> bytes@[k] == 0,
            decreases 8 - i,
        {
            let shift: u64 = 8 * i as u64;
            bytes.set(i, ((value >> shift) & 0xff) as u8);
            i = i + 1;
        }
        assert(bytes@ =~= seed_material(value));
        Seed(blake3_hash(&bytes))
    }

    /// The seed of the stream named `name` under this seed: the BLAKE3 hash
    /// of the name's UTF-8 bytes keyed by this seed.
    pub fn child(self, name: &str) -> (seed: Self)
        ensures
            seed.0@ == blake3_keyed_digest(self.0@, vstd::utf8::encode_utf8(name@)),
    {
        Seed(blake3_keyed(&self.0, name.as_bytes()))
    }
}

/// The 64-bit number that the ChaCha12 stream seeded by `seed` yields from
/// its 32-bit word `word` on: the low half from that word, the high half
/// from the next.
pub uninterp spec fn chacha12_u64_at(seed: Seq<u8>, word: int) -> u64;

/// `ChaCha12Rng::from_seed`, then `set_word_pos(word)` and
/// `RngCore::next_u64`: the number the stream seeded by `seed` yields from
/// word `word` on, named by `chacha12_u64_at`.
#[verifier::external_body]
fn chacha_u64_at(seed: &[u8; 32], word: u128) -> (value: u64)
    ensures
        value == chacha12_u64_at(seed@, word as int),
{
    let mut rng = ChaCha12Rng::from_seed(*seed);
    rng.set_word_pos(word);
    rng.next_u64()
}

/// The index that a draw picks among `length` choices: none when there is
/// nothing to choose from, else the draw modulo `length`.
pub open spec fn index_of_draw(draw: u64, length: usize) -> Option<usize> {
    if length == 0 {
        None
    } else {
        Some((draw % (length as u64)) as usize)
    }
}

/// Picks an index among `length` choices from one draw.
pub fn index_from_draw(draw: u64, length: usize) -> (index: Option<usize>)
    ensures
        index == index_of_draw(draw, length),
{
    if length == 0 {
        None
    } else {
        Some((draw % (length as u64)) as usize)
    }
}

/// A named stream of random numbers derived from a root seed: the ChaCha12
/// stream seeded by the stream's seed, drawn 64 bits at a time.
pub struct NamedRng {
    root: Seed,
    name: String,
    seed: Seed,
    word: u128,
}

impl NamedRng {
    /// The stream named `name` under `root`, seeded by `root.child(name)`.
    pub fn new(root: Seed, name: String) -> (rng: Self)
        ensures
            rng.root_view() == root.0@,
            rng.name_view() == name@,
            rng.drawn() == 0,
    {
        let child = root.child(name.as_str());
        NamedRng { root, name, seed: child, word: 0 }
    }

    #[verifier::type_invariant]
    spec fn well_formed(&self) -> bool {
        &&& self.seed.0@ == blake3_keyed_digest(self.root.0@, vstd::utf8::encode_utf8(self.name@))
        &&& self.word % 2 == 0
    }

    /// How many numbers the stream has drawn.
    pub closed spec fn drawn(&self) -> nat {
        (self.word / 2) as nat
    }

    /// The root seed's bytes.
    pub closed spec fn root_view(&self) -> Seq<u8> {
        self.root.0@
    }

    /// The stream's name.
    pub closed spec fn name_view(&self) -> Seq<char> {
        self.name@
    }

    /// The stream named `<this name>/<name>` under the same root.
    pub fn child(&self, name: &str) -> (rng: Self)
        ensures
            rng.root_view() == self.root_view(),
            rng.name_view() == self.name_view() + "/"@ + name@,
    {
        let mut full = self.name.clone();
        full.append("/");
        full.append(name);
        NamedRng::new(self.root, full)
    }

    pub fn root_seed(&self) -> (seed: Seed)
        ensures
            seed.0@ == self.root_view(),
    {
        self.root
    }

    /// The seed from which this stream draws.
    pub fn stream_seed(&self) -> (seed: Seed)
        ensures
            seed.0@ == blake3_keyed_digest(self.root_view(), vstd::utf8::encode_utf8(self.name_view())),
    {
        self.root.child(self.name.as_str())
    }

    /// Draws the next number of the stream: the number the stream's ChaCha12
    /// stream yields from the word after the two of each earlier draw.
    pub fn next_u64(&mut self) -> (value: u64)
        requires
            old(self).drawn() < u64::MAX,
        ensures
            final(self).root_view() == old(self).root_view(),
            final(self).name_view() == old(self).name_view(),
            final(self).drawn() == old(self).drawn() + 1,
            value == chacha12_u64_at(
                blake3_keyed_digest(old(self).root_view(), vstd::utf8::encode_utf8(old(self).name_view())),
                (2 * old(self).drawn()) as int,
            ),
    {
        proof {
            use_type_invariant(&*self);
        }
        let value = chacha_u64_at(&self.seed.0, self.word);
        self.word = self.word + 2;
        value
    }

    /// Picks an index among `length` choices from the next draw: none when
    /// `length` is zero (and nothing is drawn).
    pub fn choose_index(&mut self, length: usize) -> (index: Option<usize>)
        requires
            old(self).drawn() < u64::MAX,
        ensures
            final(self).root_view() == old(self).root_view(),
            final(self).name_view() == old(self).name_view(),
            length == 0 ==> index is None && final(self).drawn() == old(self).drawn(),
            length > 0 ==> index == index_of_draw(
                chacha12_u64_at(
                    blake3_keyed_digest(old(self).root_view(), vstd::utf8::encode_utf8(old(self).name_view())),
                    (2 * old(self).drawn()) as int,
                ),
                length,
            ) && final(self).drawn() == old(self).drawn() + 1,
            index matches Some(i) ==> i < length,
    {
        if length == 0 {
            return None;
        }
        let draw = self.next_u64();
        let index = index_from_draw(draw, length);
        index
    }
}

} // verus!
