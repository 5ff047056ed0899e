//! Ordered Merkle commitment over index-bound leaf digests, with inclusion
//! proofs.
//!
//! The tree layout is a protocol constant and must match bit-for-bit across
//! participants: a stored leaf is SHA3-256 over a `0x00` prefix and the leaf
//! item; an interior node is SHA3-256 over a `0x01` prefix, the left child
//! and the right child; a level of odd width is padded by repeating its last
//! node. The root is the single node of the topmost level.

use vstd::prelude::*;
use crate::primitives::Digest;
use crate::primitives::ExampleAlgorithm;
use crate::primitives::bytes_eq;
use crate::primitives::sha3_256_of;

verus! {

/// The byte sequences of a sequence of digests.
pub open spec fn digests_view(ds: Seq<Digest>) -> Seq<Seq<u8>> {
    ds.map_values(|d: Digest| d@)
}

/// The stored hash of a leaf item: SHA3-256 over a 0x00 prefix and the item.
pub open spec fn tree_leaf_of(item: Seq<u8>) -> Seq<u8> {
    sha3_256_of(seq![0u8] + item)
}

/// The hash of an interior node: SHA3-256 over a 0x01 prefix, the left child
/// and the right child.
pub open spec fn tree_node_of(left: Seq<u8>, right: Seq<u8>) -> Seq<u8> {
    sha3_256_of(seq![1u8] + left + right)
}

/// A level padded to even width by repeating its last node.
pub open spec fn pad_even(level: Seq<Seq<u8>>) -> Seq<Seq<u8>> {
    if level.len() % 2 == 1 {
        level.push(level.last())
    } else {
        level
    }
}

/// The next level up: each pair of the padded level combined into one node.
pub open spec fn level_up_of(level: Seq<Seq<u8>>) -> Seq<Seq<u8>> {
    Seq::new(pad_even(level).len() / 2, |j: int|
        tree_node_of(pad_even(level)[2 * j], pad_even(level)[2 * j + 1]))
}

/// The root over a level: combine pairwise until a single node is left.
pub open spec fn root_from(level: Seq<Seq<u8>>) -> Seq<u8>
    recommends
        level.len() >= 1,
    decreases level.len(),
{
    if level.len() <= 1 {
        level[0]
    } else {
        root_from(level_up_of(level))
    }
}

/// The stored hashes of a sequence of leaf items.
pub open spec fn hash_leaves(items: Seq<Seq<u8>>) -> Seq<Seq<u8>> {
    items.map_values(|i: Seq<u8>| tree_leaf_of(i))
}

/// The root committing to a sequence of leaf items.
pub open spec fn root_of_items(items: Seq<Seq<u8>>) -> Seq<u8> {
    root_from(hash_leaves(items))
}

/// Recombining a stored leaf hash along a sibling path: at each step the
/// running hash is combined with the next sibling, on the left when the flag
/// says the running node is the left child.
pub open spec fn climb(h: Seq<u8>, siblings: Seq<Seq<u8>>, lefts: Seq<bool>) -> Seq<u8>
    recommends
        siblings.len() == lefts.len(),
    decreases siblings.len(),
{
    if siblings.len() == 0 {
        h
    } else {
        let next = if lefts[0] {
            tree_node_of(h, siblings[0])
        } else {
            tree_node_of(siblings[0], h)
        };
        climb(next, siblings.drop_first(), lefts.drop_first())
    }
}

/// Climbing a path with one more sibling at the top combines the climb of the
/// shorter path with that sibling.
pub proof fn lemma_climb_snoc(
    h: Seq<u8>,
    siblings: Seq<Seq<u8>>,
    lefts: Seq<bool>,
    s: Seq<u8>,
    l: bool,
)
    requires
        siblings.len() == lefts.len(),
    ensures
        climb(h, siblings.push(s), lefts.push(l)) == (if l {
            tree_node_of(climb(h, siblings, lefts), s)
        } else {
            tree_node_of(s, climb(h, siblings, lefts))
        }),
    decreases siblings.len(),
{
    reveal_with_fuel(climb, 3);
    if siblings.len() == 0 {
        assert(siblings.push(s).drop_first() =~= siblings);
        assert(lefts.push(l).drop_first() =~= lefts);
    } else {
        assert(siblings.push(s).drop_first() =~= siblings.drop_first().push(s));
        assert(lefts.push(l).drop_first() =~= lefts.drop_first().push(l));
        let next = if lefts[0] {
            tree_node_of(h, siblings[0])
        } else {
            tree_node_of(siblings[0], h)
        };
        lemma_climb_snoc(next, siblings.drop_first(), lefts.drop_first(), s, l);
    }
}

/// The stored hash of one leaf item.
pub fn hash_leaf(item: &Digest) -> (r: Digest)
    ensures
        r@ == tree_leaf_of(item@),
        r.wf(),
{
    let mut a = ExampleAlgorithm::new();
    let mut prefix: Vec<u8> = Vec::new();
    prefix.push(0u8);
    a.write(prefix.as_slice());
    a.write(item.as_bytes().as_slice());
    proof {
        assert(a.buf@ =~= seq![0u8] + item@);
    }
    a.hash()
}

/// The hash of one interior node.
pub fn hash_node(left: &Digest, right: &Digest) -> (r: Digest)
    ensures
        r@ == tree_node_of(left@, right@),
        r.wf(),
{
    let mut a = ExampleAlgorithm::new();
    let mut prefix: Vec<u8> = Vec::new();
    prefix.push(1u8);
    a.write(prefix.as_slice());
    a.write(left.as_bytes().as_slice());
    a.write(right.as_bytes().as_slice());
    proof {
        assert(a.buf@ =~= seq![1u8] + left@ + right@);
    }
    a.hash()
}

/// A Merkle inclusion proof: the claimed leaf item, the sibling path up the
/// tree with the side of the running node at each step, and the claimed root.
#[derive(Debug)]
pub struct MerkleProof {
    pub leaf: Digest,
    pub siblings: Vec<Digest>,
    pub lefts: Vec<bool>,
    pub root: Digest,
}

impl MerkleProof {
    /// A proof is well formed when it records one side flag per sibling.
    pub open spec fn wf(self) -> bool {
        self.siblings@.len() == self.lefts@.len()
    }

    /// Whether the claimed leaf recombines to the claimed root along the path.
    pub open spec fn climbs_to_root(self) -> bool {
        climb(tree_leaf_of(self.leaf@), digests_view(self.siblings@), self.lefts@) == self.root@
    }

    /// The claimed leaf item.
    pub fn item(&self) -> (r: Digest)
        ensures
            r@ == self.leaf@,
    {
        self.leaf.clone()
    }

    /// The claimed root.
    pub fn root(&self) -> (r: Digest)
        ensures
            r@ == self.root@,
    {
        self.root.clone()
    }

    /// Structural validation: recompute the stored leaf hash and recombine it
    /// along the sibling path; the proof is valid exactly when the result is
    /// the claimed root.
    pub fn validate(&self) -> (r: bool)
        ensures
            r == (self.wf() && self.climbs_to_root()),
    {
        if self.siblings.len() != self.lefts.len() {
            return false;
        }
        let ghost base = tree_leaf_of(self.leaf@);
        let mut h = hash_leaf(&self.leaf);
        let mut k: usize = 0;
        while k < self.siblings.len()
            invariant
                k <= self.siblings@.len(),
                self.siblings@.len() == self.lefts@.len(),
                base == tree_leaf_of(self.leaf@),
                h@ == climb(base, digests_view(self.siblings@).take(k as int),
                    self.lefts@.take(k as int)),
            decreases self.siblings@.len() - k,
        {
            let sib = &self.siblings[k];
            proof {
                assert(digests_view(self.siblings@).take(k + 1 as int) =~= digests_view(
                    self.siblings@,
                ).take(k as int).push(self.siblings@[k as int]@));
                assert(self.lefts@.take(k + 1 as int) =~= self.lefts@.take(k as int).push(
                    self.lefts@[k as int],
                ));
                lemma_climb_snoc(base, digests_view(self.siblings@).take(k as int),
                    self.lefts@.take(k as int), self.siblings@[k as int]@,
                    self.lefts@[k as int]);
            }
            if self.lefts[k] {
                h = hash_node(&h, sib);
            } else {
                h = hash_node(sib, &h);
            }
            k = k + 1;
        }
        proof {
            assert(digests_view(self.siblings@).take(self.siblings@.len() as int)
                =~= digests_view(self.siblings@));
            assert(self.lefts@.take(self.lefts@.len() as int) =~= self.lefts@);
        }
        bytes_eq(h.as_bytes(), self.root.as_bytes())
    }
}

/// An ordered Merkle tree: the committed leaf items and every level of stored
/// hashes, from the hashed leaves up to the single root node.
pub struct MerkleTree {
    pub items: Vec<Digest>,
    pub levels: Vec<Vec<Digest>>,
}

impl MerkleTree {
    /// Each level combines the one below it, the bottom level holds the
    /// hashed leaf items, and the top level is the single root node.
    pub open spec fn wf(self) -> bool {
        &&& self.items@.len() >= 1
        &&& self.levels@.len() >= 1
        &&& digests_view(self.levels@[0]@) == hash_leaves(digests_view(self.items@))
        &&& self.levels@.last()@.len() == 1
        &&& forall|k: int| 0 <= k < self.levels@.len() - 1 ==> #[trigger] self.levels@[k]@.len()
            >= 2
        &&& forall|k: int| 0 <= k < self.levels@.len() - 1 ==> digests_view(
            #[trigger] self.levels@[k + 1]@,
        ) == level_up_of(digests_view(self.levels@[k]@))
    }

    /// The leaf items this tree commits to.
    pub open spec fn items_view(self) -> Seq<Seq<u8>> {
        digests_view(self.items@)
    }

    /// The root node of the tree.
    pub open spec fn root_view(self) -> Seq<u8> {
        digests_view(self.levels@.last()@)[0]
    }

    /// From any level upward the pairwise combination reaches the stored root.
    proof fn lemma_root_from_level(self, k: int)
        requires
            self.wf(),
            0 <= k < self.levels@.len(),
        ensures
            root_from(digests_view(self.levels@[k]@)) == self.root_view(),
        decreases self.levels@.len() - k,
    {
        if k == self.levels@.len() - 1 {
            assert(root_from(digests_view(self.levels@[k]@)) == digests_view(
                self.levels@[k]@,
            )[0]);
        } else {
            assert(digests_view(self.levels@[k + 1]@) == level_up_of(digests_view(
                self.levels@[k]@,
            )));
            assert(self.levels@[k]@.len() >= 2);
            self.lemma_root_from_level(k + 1);
        }
    }

    /// The stored root is the pairwise combination of the hashed leaf items.
    pub proof fn lemma_root(self)
        requires
            self.wf(),
        ensures
            self.root_view() == root_of_items(self.items_view()),
    {
        self.lemma_root_from_level(0);
    }

    /// Builds the tree over the given leaf items.
    pub fn new(items: Vec<Digest>) -> (r: Self)
        requires
            items@.len() >= 1,
        ensures
            r.wf(),
            r.items@ == items@,
    {
        let mut level0: Vec<Digest> = Vec::new();
        let mut i: usize = 0;
        while i < items.len()
            invariant
                i <= items@.len(),
                level0@.len() == i,
                forall|q: int| 0 <= q < i ==> digests_view(level0@)[q] == tree_leaf_of(
                    digests_view(items@)[q],
                ),
            decreases items@.len() - i,
        {
            let d = hash_leaf(&items[i]);
            proof {
                assert(digests_view(level0@.push(d)) =~= digests_view(level0@).push(d@));
            }
            level0.push(d);
            i = i + 1;
        }
        proof {
            assert(digests_view(level0@) =~= hash_leaves(digests_view(items@)));
        }
        let mut levels: Vec<Vec<Digest>> = Vec::new();
        levels.push(level0);
        while levels[levels.len() - 1].len() > 1
            invariant
                levels@.len() >= 1,
                levels@.last()@.len() >= 1,
                digests_view(levels@[0]@) == hash_leaves(digests_view(items@)),
                forall|k: int| 0 <= k < levels@.len() - 1 ==> #[trigger] levels@[k]@.len() >= 2,
                forall|k: int| 0 <= k < levels@.len() - 1 ==> digests_view(
                    #[trigger] levels@[k + 1]@,
                ) == level_up_of(digests_view(levels@[k]@)),
            decreases levels@.last()@.len(),
        {
            let next = level_up(&levels[levels.len() - 1]);
            levels.push(next);
        }
        MerkleTree { items, levels }
    }

    /// The committed root.
    pub fn root(&self) -> (r: Digest)
        requires
            self.wf(),
        ensures
            r@ == self.root_view(),
    {
        self.levels[self.levels.len() - 1][0].clone()
    }

    /// Generates the inclusion proof for the leaf at index `i`: its sibling
    /// path recombines to the committed root.
    pub fn gen_proof(&self, i: usize) -> (r: MerkleProof)
        requires
            self.wf(),
            i < self.items@.len(),
        ensures
            r.wf(),
            r.leaf@ == self.items_view()[i as int],
            r.root@ == self.root_view(),
            r.climbs_to_root(),
    {
        let ghost base = tree_leaf_of(self.items@[i as int]@);
        let mut siblings: Vec<Digest> = Vec::new();
        let mut lefts: Vec<bool> = Vec::new();
        let mut j: usize = i;
        let mut k: usize = 0;
        proof {
            assert(digests_view(self.levels@[0]@).len() == self.levels@[0]@.len());
            assert(hash_leaves(digests_view(self.items@)).len() == self.items@.len());
            assert(digests_view(self.levels@[0]@)[i as int] == tree_leaf_of(
                digests_view(self.items@)[i as int],
            ));
        }
        while k < self.levels.len() - 1
            invariant
                self.wf(),
                i < self.items@.len(),
                base == tree_leaf_of(self.items@[i as int]@),
                k < self.levels@.len(),
                j < self.levels@[k as int]@.len(),
                siblings@.len() == lefts@.len(),
                climb(base, digests_view(siblings@), lefts@) == digests_view(
                    self.levels@[k as int]@,
                )[j as int],
            decreases self.levels@.len() - k,
        {
            let lv = &self.levels[k];
            let left_side = j % 2 == 0;
            let sib = if left_side {
                if j + 1 < lv.len() {
                    lv[j + 1].clone()
                } else {
                    lv[j].clone()
                }
            } else {
                lv[j - 1].clone()
            };
            proof {
                let dv = digests_view(self.levels@[k as int]@);
                let p = pad_even(dv);
                assert(digests_view(self.levels@[k as int + 1]@) == level_up_of(dv));
                if left_side {
                    if j + 1 < lv.len() {
                        assert(p[j as int] == dv[j as int] && p[j as int + 1] == dv[j as int + 1]);
                    } else {
                        assert(dv.len() % 2 == 1);
                        assert(p[j as int] == dv[j as int] && p[j as int + 1] == dv.last());
                        assert(dv.last() == dv[j as int]);
                    }
                } else {
                    assert(p[j as int - 1] == dv[j as int - 1] && p[j as int] == dv[j as int]);
                }
                assert(digests_view(self.levels@[k as int + 1]@)[j as int / 2] == (if left_side {
                    tree_node_of(dv[j as int], sib@)
                } else {
                    tree_node_of(sib@, dv[j as int])
                }));
                lemma_climb_snoc(base, digests_view(siblings@), lefts@, sib@, left_side);
                assert(digests_view(siblings@.push(sib)) =~= digests_view(siblings@).push(sib@));
                assert(digests_view(self.levels@[k as int + 1]@).len() == pad_even(dv).len() / 2);
                assert(j as int / 2 < pad_even(dv).len() / 2);
            }
            siblings.push(sib);
            lefts.push(left_side);
            j = j / 2;
            k = k + 1;
        }
        MerkleProof {
            leaf: self.items[i].clone(),
            siblings,
            lefts,
            root: self.levels[k][0].clone(),
        }
    }
}

/// One level combined pairwise into the next level up.
fn level_up(level: &Vec<Digest>) -> (r: Vec<Digest>)
    requires
        level@.len() >= 2,
    ensures
        digests_view(r@) == level_up_of(digests_view(level@)),
        1 <= r@.len() < level@.len(),
{
    let n = level.len();
    let half = n / 2 + n % 2;
    let mut out: Vec<Digest> = Vec::new();
    let mut j: usize = 0;
    while j < half
        invariant
            j <= half,
            n == level@.len(),
            half == level@.len() / 2 + level@.len() % 2,
            level@.len() >= 2,
            out@.len() == j,
            forall|q: int| 0 <= q < j ==> digests_view(out@)[q] == level_up_of(
                digests_view(level@),
            )[q],
        decreases half - j,
    {
        proof {
            assert(2 * (j as int) < level@.len()) by {
                assert(j as int <= half as int - 1);
                assert(2 * (half as int) <= level@.len() + 1);
            };
        }
        let left = &level[2 * j];
        let right = if 2 * j + 1 < n {
            &level[2 * j + 1]
        } else {
            &level[2 * j]
        };
        let node = hash_node(left, right);
        proof {
            let dv = digests_view(level@);
            let p = pad_even(dv);
            if 2 * j + 1 < level@.len() {
                assert(p[2 * (j as int)] == dv[2 * (j as int)] && p[2 * (j as int) + 1] == dv[
                    2 * (j as int) + 1
                ]);
            } else {
                assert(dv.len() % 2 == 1);
                assert(p[2 * (j as int)] == dv[2 * (j as int)] && p[2 * (j as int) + 1]
                    == dv.last());
                assert(dv.last() == dv[2 * (j as int)]);
            }
            assert(level_up_of(dv)[j as int] == node@);
            assert(digests_view(out@.push(node)) =~= digests_view(out@).push(node@));
        }
        out.push(node);
        j = j + 1;
    }
    proof {
        assert(digests_view(out@) =~= level_up_of(digests_view(level@)));
    }
    out
}

} // verus!
