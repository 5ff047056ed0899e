//! The committee: maps an authority's public key to a stable index, reports
//! per-authority stake, and reports the quorum stake threshold.
//!
//! Membership configuration and stake-table management are out of scope: a
//! committee is handed in fully formed and never changes.

use vstd::prelude::*;
use crate::primitives::PublicKey;
use crate::primitives::bytes_eq;

verus! {

/// The position of the first occurrence of `key` in `keys`, if any.
pub open spec fn first_index(keys: Seq<Seq<u8>>, key: Seq<u8>) -> Option<int>
    decreases keys.len(),
{
    if keys.len() == 0 {
        None
    } else if keys[0] == key {
        Some(0)
    } else {
        match first_index(keys.drop_first(), key) {
            Some(i) => Some(i + 1),
            None => None,
        }
    }
}

/// No key occurs twice.
pub open spec fn distinct_keys(keys: Seq<Seq<u8>>) -> bool {
    forall|i: int, j: int| 0 <= i < j < keys.len() ==> keys[i] != keys[j]
}

/// `first_index` finds the first match: the returned position holds the key
/// and no earlier position does; `None` means the key is absent.
pub proof fn lemma_first_index(keys: Seq<Seq<u8>>, key: Seq<u8>)
    ensures
        match first_index(keys, key) {
            Some(i) => 0 <= i < keys.len() && keys[i] == key && (forall|k: int|
                0 <= k < i ==> keys[k] != key),
            None => forall|k: int| 0 <= k < keys.len() ==> keys[k] != key,
        },
    decreases keys.len(),
{
    if keys.len() > 0 && keys[0] != key {
        lemma_first_index(keys.drop_first(), key);
        assert(forall|k: int|
            1 <= k < keys.len() ==> #[trigger] keys[k] == keys.drop_first()[k - 1]);
    }
}

/// When position `i` holds the key and no earlier position does,
/// `first_index` returns exactly `i`.
pub proof fn lemma_first_index_found(keys: Seq<Seq<u8>>, key: Seq<u8>, i: int)
    requires
        0 <= i < keys.len(),
        keys[i] == key,
        forall|k: int| 0 <= k < i ==> keys[k] != key,
    ensures
        first_index(keys, key) == Some(i),
    decreases keys.len(),
{
    if i > 0 {
        let rest = keys.drop_first();
        assert(forall|k: int|
            1 <= k < keys.len() ==> #[trigger] keys[k] == rest[k - 1]);
        assert(rest[i - 1] == key);
        assert(forall|k: int| 0 <= k < i - 1 ==> #[trigger] rest[k] == keys[k + 1]);
        lemma_first_index_found(rest, key, i - 1);
    }
}

/// When no position holds the key, `first_index` returns `None`.
pub proof fn lemma_first_index_none(keys: Seq<Seq<u8>>, key: Seq<u8>)
    requires
        forall|k: int| 0 <= k < keys.len() ==> keys[k] != key,
    ensures
        first_index(keys, key) is None,
    decreases keys.len(),
{
    if keys.len() > 0 {
        let rest = keys.drop_first();
        assert(forall|k: int| 0 <= k < rest.len() ==> #[trigger] rest[k] == keys[k + 1]);
        lemma_first_index_none(rest, key);
    }
}

/// A fixed validator committee: an ordered list of (public key, stake) pairs
/// and the quorum stake threshold for the round.
pub struct Committee {
    pub members: Vec<(PublicKey, u64)>,
    pub threshold: u64,
}

impl Committee {
    /// The members' keys, in committee order.
    pub open spec fn keys(self) -> Seq<Seq<u8>> {
        self.members@.map_values(|m: (PublicKey, u64)| m.0@)
    }

    /// A committee is well formed when its keys are pairwise distinct.
    pub open spec fn wf(self) -> bool {
        distinct_keys(self.keys())
    }

    /// The committee index of `key`: its position in the member list.
    pub open spec fn index_spec(self, key: Seq<u8>) -> Option<int> {
        first_index(self.keys(), key)
    }

    /// The stake of `key`: its listed stake, or 0 if it is not a member.
    pub open spec fn stake_of(self, key: Seq<u8>) -> int {
        match first_index(self.keys(), key) {
            Some(i) => self.members@[i].1 as int,
            None => 0,
        }
    }

    pub open spec fn quorum_threshold_spec(self) -> int {
        self.threshold as int
    }

    pub open spec fn size_spec(self) -> int {
        self.members@.len() as int
    }

    /// Builds a committee from a member list and a quorum threshold. Returns
    /// `None` when two members share a public key.
    pub fn new(members: Vec<(PublicKey, u64)>, threshold: u64) -> (r: Option<Committee>)
        ensures
            match r {
                Some(c) => {
                    &&& c.members@ == members@
                    &&& c.threshold == threshold
                    &&& c.wf()
                },
                None => !distinct_keys(members@.map_values(|m: (PublicKey, u64)| m.0@)),
            },
    {
        let ghost keys = members@.map_values(|m: (PublicKey, u64)| m.0@);
        let mut i: usize = 0;
        while i < members.len()
            invariant
                i <= members.len(),
                keys == members@.map_values(|m: (PublicKey, u64)| m.0@),
                forall|p: int, q: int| 0 <= p < q < members.len() && p < i ==> keys[p] != keys[q],
            decreases members.len() - i,
        {
            let mut j: usize = i + 1;
            while j < members.len()
                invariant
                    i < j <= members.len(),
                    keys == members@.map_values(|m: (PublicKey, u64)| m.0@),
                    forall|q: int| i < q < j ==> keys[i as int] != keys[q],
                decreases members.len() - j,
            {
                if bytes_eq(&members[i].0.bytes, &members[j].0.bytes) {
                    assert(keys[i as int] == keys[j as int]);
                    return None;
                }
                j = j + 1;
            }
            i = i + 1;
        }
        Some(Committee { members, threshold })
    }

    /// The committee index of `name`, or `None` when `name` is not a member.
    pub fn index(&self, name: &PublicKey) -> (r: Option<usize>)
        ensures
            match r {
                Some(i) => self.index_spec(name@) == Some(i as int),
                None => self.index_spec(name@) is None,
            },
    {
        let mut i: usize = 0;
        while i < self.members.len()
            invariant
                i <= self.members.len(),
                forall|k: int| 0 <= k < i ==> self.keys()[k] != name@,
            decreases self.members.len() - i,
        {
            if bytes_eq(&self.members[i].0.bytes, &name.bytes) {
                proof {
                    assert(self.keys()[i as int] == name@);
                    lemma_first_index_found(self.keys(), name@, i as int);
                }
                return Some(i);
            }
            i = i + 1;
        }
        proof {
            lemma_first_index_none(self.keys(), name@);
        }
        None
    }

    /// The stake of `name`: its listed stake, or 0 when it is not a member.
    pub fn stake(&self, name: &PublicKey) -> (r: u64)
        ensures
            r as int == self.stake_of(name@),
    {
        proof {
            lemma_first_index(self.keys(), name@);
        }
        match self.index(name) {
            Some(i) => self.members[i].1,
            None => 0,
        }
    }

    /// The quorum stake threshold for the round.
    pub fn quorum_threshold(&self) -> (r: u64)
        ensures
            r as int == self.quorum_threshold_spec(),
    {
        self.threshold
    }

    /// The number of committee members.
    pub fn size(&self) -> (r: usize)
        ensures
            r as int == self.size_spec(),
    {
        self.members.len()
    }
}

} // verus!
