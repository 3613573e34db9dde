//! The set of positions that a search has come to.

use core::hash::BuildHasherDefault;
use vstd::prelude::*;
use vstd::set_lib::lemma_int_range;
use vstd::set_lib::lemma_len_subset;
use vstd::set_lib::set_int_range;

use crate::input::Rot;
use crate::piece::Pos;

verus! {

/// The number of keys: every position has a key below it.
pub const KEYS: u32 = 262144;

/// The key of a position: a number that stands for the position in a set,
/// different for different positions.
pub open spec fn spec_key(pos: Pos) -> u32 {
    (((pos.x + 128) * 256 + (pos.y + 128)) * 4 + pos.r.index()) as u32
}

/// The key of a position.
pub fn key(pos: Pos) -> (k: u32)
    ensures
        k == spec_key(pos),
        k < KEYS,
{
    let x = (pos.x as i32 + 128) as u32;
    let y = (pos.y as i32 + 128) as u32;
    let r: u32 = match pos.r {
        Rot::N => 0,
        Rot::E => 1,
        Rot::S => 2,
        Rot::W => 3,
    };
    (x * 256 + y) * 4 + r
}

/// Different positions have different keys, all below [`KEYS`].
pub proof fn lemma_key_injective(a: Pos, b: Pos)
    ensures
        spec_key(a) < KEYS,
        spec_key(a) == spec_key(b) ==> a == b,
{
}

/// A hash set of keys: `hashbrown::HashSet` with the hasher of `ahash`.
/// Verus does not look inside; what it knows of the set is what the
/// functions below say of [`keys_of`].
#[verifier::external_body]
pub struct KeySet {
    inner: hashbrown::HashSet<u32, BuildHasherDefault<ahash::AHasher>>,
}

/// The keys that a [`KeySet`] holds.
pub uninterp spec fn keys_of(set: KeySet) -> Set<u32>;

/// `hashbrown::HashSet::with_capacity` makes an empty set; the capacity
/// only says how much room to set aside.
#[verifier::external_body]
fn key_set_with_capacity(capacity: usize) -> (set: KeySet)
    ensures
        keys_of(set) == Set::<u32>::empty(),
{
    KeySet { inner: hashbrown::HashSet::with_capacity(capacity) }
}

/// `hashbrown::HashSet::insert` adds the value to the set, and returns
/// whether the set did not have it before.
#[verifier::external_body]
fn key_set_insert(set: &mut KeySet, k: u32) -> (fresh: bool)
    ensures
        fresh == !keys_of(*old(set)).contains(k),
        keys_of(*final(set)) == keys_of(*old(set)).insert(k),
{
    set.inner.insert(k)
}

/// `hashbrown::HashSet::is_empty` tells whether the set holds no value.
#[verifier::external_body]
fn key_set_is_empty(set: &KeySet) -> (empty: bool)
    ensures
        empty == (keys_of(*set) == Set::<u32>::empty()),
{
    set.inner.is_empty()
}

/// A set of positions.
pub struct PosSet {
    keys: KeySet,
}

impl PosSet {
    /// Whether the set holds `pos`.
    pub closed spec fn contains(self, pos: Pos) -> bool {
        keys_of(self.keys).contains(spec_key(pos))
    }

    /// Whether the set holds nothing.
    pub closed spec fn is_empty_spec(self) -> bool {
        keys_of(self.keys) == Set::<u32>::empty()
    }

    /// The keys that the set does not hold.
    pub closed spec fn unseen(self) -> Set<int> {
        Set::new(|k: int| 0 <= k < KEYS && !keys_of(self.keys).contains(k as u32))
    }

    /// The number of positions that the set can still take in.
    pub open spec fn room(self) -> nat {
        self.unseen().len()
    }

    /// A set that holds a position is not empty.
    pub proof fn lemma_not_empty(self, pos: Pos)
        requires
            self.contains(pos),
        ensures
            !self.is_empty_spec(),
    {
    }

    /// There is room for [`KEYS`] positions at most.
    pub proof fn lemma_room(self)
        ensures
            self.unseen().finite(),
            self.room() <= KEYS,
    {
        lemma_int_range(0, KEYS as int);
        lemma_len_subset(self.unseen(), set_int_range(0, KEYS as int));
    }

    /// An empty set has room for [`KEYS`] positions.
    pub proof fn lemma_all_room(self)
        requires
            self.is_empty_spec(),
        ensures
            self.room() == KEYS,
    {
        lemma_int_range(0, KEYS as int);
        assert(self.unseen() =~= set_int_range(0, KEYS as int));
    }

    /// An empty set, with room set aside for `capacity` positions.
    pub fn with_capacity(capacity: usize) -> (set: PosSet)
        ensures
            set.is_empty_spec(),
            forall|pos: Pos| !set.contains(pos),
    {
        PosSet { keys: key_set_with_capacity(capacity) }
    }

    /// Adds `pos` to the set, and returns whether the set did not hold it
    /// before.
    pub fn insert(&mut self, pos: Pos) -> (fresh: bool)
        ensures
            fresh == !old(self).contains(pos),
            forall|p: Pos| final(self).contains(p) == (old(self).contains(p) || p == pos),
            !final(self).is_empty_spec(),
            final(self).room() + (if fresh {
                1nat
            } else {
                0nat
            }) == old(self).room(),
    {
        let k = key(pos);
        let fresh = key_set_insert(&mut self.keys, k);
        proof {
            old(self).lemma_room();
            assert forall|p: Pos| self.contains(p) == (old(self).contains(p) || p == pos) by {
                lemma_key_injective(p, pos);
            }
            assert(keys_of(self.keys).contains(k));
            if fresh {
                assert(self.unseen() =~= old(self).unseen().remove(k as int));
            } else {
                assert(keys_of(self.keys) =~= keys_of(old(self).keys));
                assert(self.unseen() =~= old(self).unseen());
            }
        }
        fresh
    }

    /// Whether the set holds nothing.
    pub fn is_empty(&self) -> (empty: bool)
        ensures
            empty == self.is_empty_spec(),
    {
        key_set_is_empty(&self.keys)
    }
}

} // verus!
