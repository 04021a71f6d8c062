//! A Merkle tree over the hashes of the shards, its proofs, and their check.
//! A level with an odd number of nodes carries its last node up unchanged.
use vstd::prelude::*;

verus! {

/// The SHA-256 digest of a byte string.
pub uninterp spec fn sha256(b: Seq<u8>) -> Seq<u8>;

/// Relies on sha2's `Sha256::digest`: the 32-byte digest of the input.
#[verifier::external_body]
pub(crate) fn do_hash(b: &[u8]) -> (r: Vec<u8>)
    ensures
        r@ == sha256(b@),
        r@.len() == 32,
{
    <sha2::Sha256 as sha2::Digest>::digest(b).to_vec()
}

/// The hash of an inner node, over its two children.
pub open spec fn join(l: Seq<u8>, r: Seq<u8>) -> Seq<u8> {
    sha256(l + r)
}

/// The views of a list of byte strings.
pub open spec fn views(v: Seq<Vec<u8>>) -> Seq<Seq<u8>> {
    v.map_values(|x: Vec<u8>| x@)
}

/// The level above `hs`: pairs are joined, an odd last node is carried up.
pub open spec fn next_level(hs: Seq<Seq<u8>>) -> Seq<Seq<u8>> {
    Seq::new(
        ((hs.len() + 1) / 2) as nat,
        |j: int| if 2 * j + 1 < hs.len() { join(hs[2 * j], hs[2 * j + 1]) } else { hs[2 * j] },
    )
}

/// The root of the tree over the leaves `hs`.
pub open spec fn root_of(hs: Seq<Seq<u8>>) -> Seq<u8>
    decreases hs.len(),
{
    if hs.len() <= 1 {
        if hs.len() == 1 { hs[0] } else { Seq::empty() }
    } else {
        root_of(next_level(hs))
    }
}

/// The siblings on the path from leaf `i` of `hs` to the root, lowest first.
pub open spec fn path_of(hs: Seq<Seq<u8>>, i: nat) -> Seq<Seq<u8>>
    decreases hs.len(),
{
    if hs.len() <= 1 {
        Seq::empty()
    } else {
        let rest = path_of(next_level(hs), i / 2);
        if i % 2 == 1 {
            seq![hs[i - 1]] + rest
        } else if i + 1 < hs.len() {
            seq![hs[i as int + 1]] + rest
        } else {
            rest
        }
    }
}

/// The root that a node hash `h` at position `idx` of a level of `width`
/// nodes leads to, given the siblings `sibs` on the way up.
pub open spec fn climb(h: Seq<u8>, idx: nat, width: nat, sibs: Seq<Seq<u8>>) -> Seq<u8>
    decreases width,
{
    if width <= 1 {
        h
    } else if idx % 2 == 1 {
        if sibs.len() == 0 { Seq::empty() } else { climb(join(sibs[0], h), idx / 2, (width + 1) / 2, sibs.drop_first()) }
    } else if idx + 1 < width {
        if sibs.len() == 0 { Seq::empty() } else { climb(join(h, sibs[0]), idx / 2, (width + 1) / 2, sibs.drop_first()) }
    } else {
        climb(h, idx / 2, (width + 1) / 2, sibs)
    }
}

/// The path of leaf `i` climbs to the root.
pub proof fn lemma_path_climbs(hs: Seq<Seq<u8>>, i: nat)
    requires
        i < hs.len(),
    ensures
        climb(hs[i as int], i, hs.len(), path_of(hs, i)) == root_of(hs),
    decreases hs.len(),
{
    if hs.len() > 1 {
        let nl = next_level(hs);
        lemma_path_climbs(nl, i / 2);
        let j = (i / 2) as int;
        assert(nl[j] == if 2 * j + 1 < hs.len() { join(hs[2 * j], hs[2 * j + 1]) } else { hs[2 * j] });
        let rest = path_of(nl, i / 2);
        if i % 2 == 1 {
            assert((seq![hs[i - 1]] + rest).drop_first() =~= rest);
        } else if i + 1 < hs.len() {
            assert((seq![hs[i as int + 1]] + rest).drop_first() =~= rest);
        }
    }
}

/// A proof that a shard with hash `leaf` sits at `index` among `width`
/// leaves of the tree with root `root`.
#[derive(Clone, Debug)]
pub struct Proof {
    pub leaf: Vec<u8>,
    pub index: usize,
    pub width: usize,
    pub siblings: Vec<Vec<u8>>,
    pub root: Vec<u8>,
}

impl Proof {
    /// The proof is consistent: its siblings lead from its leaf to its root.
    pub open spec fn valid(self) -> bool {
        climb(self.leaf@, self.index as nat, self.width as nat, views(self.siblings@)) == self.root@
    }

    pub open spec fn same(self, other: Proof) -> bool {
        &&& self.leaf@ == other.leaf@
        &&& self.index == other.index
        &&& self.width == other.width
        &&& views(self.siblings@) == views(other.siblings@)
        &&& self.root@ == other.root@
    }

    /// The same proof, byte for byte.
    pub fn copy(&self) -> (r: Proof)
        ensures
            r.same(*self),
            r.valid() == self.valid(),
    {
        let mut sibs: Vec<Vec<u8>> = Vec::new();
        let mut i: usize = 0;
        while i < self.siblings.len()
            invariant
                i <= self.siblings.len(),
                sibs.len() == i,
                forall|j: int| 0 <= j < i ==> #[trigger] sibs@[j]@ == self.siblings@[j]@,
            decreases self.siblings.len() - i,
        {
            sibs.push(self.siblings[i].clone());
            i = i + 1;
        }
        assert(views(sibs@) =~= views(self.siblings@));
        Proof { leaf: self.leaf.clone(), index: self.index, width: self.width, siblings: sibs, root: self.root.clone() }
    }
}

/// A tree kept level by level, leaves first.
pub struct MerkleTree {
    pub levels: Vec<Vec<Vec<u8>>>,
}

impl MerkleTree {
    pub open spec fn level(self, k: int) -> Seq<Seq<u8>> {
        views(self.levels@[k]@)
    }

    pub open spec fn leaves(self) -> Seq<Seq<u8>> {
        self.level(0)
    }

    pub open spec fn wf(self) -> bool {
        &&& self.levels.len() >= 1
        &&& self.level(self.levels.len() - 1).len() == 1
        &&& forall|k: int| 0 <= k < self.levels.len() - 1 ==> #[trigger] self.level(k + 1) == next_level(self.level(k))
            && self.level(k).len() >= 2
    }

    proof fn lemma_root_from(self, k: int)
        requires
            self.wf(),
            0 <= k < self.levels.len(),
        ensures
            root_of(self.level(k)) == self.level(self.levels.len() - 1)[0],
        decreases self.levels.len() - k,
    {
        if k < self.levels.len() - 1 {
            self.lemma_root_from(k + 1);
            assert(self.level(k + 1) == next_level(self.level(k)));
        }
    }
}

/// One level up, as `next_level` says.
fn build_next_level(hs: &Vec<Vec<u8>>) -> (r: Vec<Vec<u8>>)
    requires
        hs.len() >= 2,
    ensures
        views(r@) == next_level(views(hs@)),
        r.len() == (hs.len() + 1) / 2,
{
    let mut r: Vec<Vec<u8>> = Vec::new();
    let mut j: usize = 0;
    let half = hs.len() / 2 + hs.len() % 2;
    while j < half
        invariant
            half == (hs.len() + 1) / 2,
            j <= half,
            r.len() == j,
            forall|k: int| 0 <= k < j ==> #[trigger] r@[k]@ == next_level(views(hs@))[k],
        decreases half - j,
    {
        if 2 * j + 1 < hs.len() {
            let mut both = hs[2 * j].clone();
            let mut right = hs[2 * j + 1].clone();
            both.append(&mut right);
            assert(both@ == hs@[2 * j as int]@ + hs@[2 * j as int + 1]@);
            let h = do_hash(both.as_slice());
            r.push(h);
        } else {
            r.push(hs[2 * j].clone());
        }
        j = j + 1;
    }
    assert(views(r@) =~= next_level(views(hs@)));
    r
}

impl MerkleTree {
    /// The tree over the given leaf hashes; there must be at least one.
    pub fn new(hashes: Vec<Vec<u8>>) -> (t: MerkleTree)
        requires
            hashes.len() >= 1,
        ensures
            t.wf(),
            t.leaves() == views(hashes@),
    {
        let mut levels: Vec<Vec<Vec<u8>>> = Vec::new();
        let mut cur = hashes;
        let ghost first = views(cur@);
        while cur.len() > 1
            invariant
                cur.len() >= 1,
                levels.len() == 0 ==> views(cur@) == first,
                levels.len() > 0 ==> views(levels@[0]@) == first,
                levels.len() > 0 ==> views(cur@) == next_level(views(levels@[levels.len() - 1]@)),
                levels.len() > 0 ==> views(levels@[levels.len() - 1]@).len() >= 2,
                forall|k: int| 0 <= k < levels.len() - 1 ==>
                    #[trigger] views(levels@[k + 1]@) == next_level(views(levels@[k]@))
                    && views(levels@[k]@).len() >= 2,
            decreases cur.len(),
        {
            let next = build_next_level(&cur);
            let ghost before = levels@;
            levels.push(cur);
            cur = next;
            proof {
                assert forall|k: int| 0 <= k < levels.len() - 1 implies
                    #[trigger] views(levels@[k + 1]@) == next_level(views(levels@[k]@))
                    && views(levels@[k]@).len() >= 2 by {
                    if k < levels.len() - 2 {
                        assert(levels@[k + 1] == before[k + 1]);
                        assert(levels@[k] == before[k]);
                    }
                }
            }
        }
        levels.push(cur);
        let t = MerkleTree { levels };
        proof {
            assert forall|k: int| 0 <= k < t.levels.len() - 1 implies #[trigger] t.level(k + 1) == next_level(t.level(k))
                && t.level(k).len() >= 2 by {
                assert(views(levels@[k + 1]@) == next_level(views(levels@[k]@)));
            }
        }
        t
    }

    /// The root hash.
    pub fn root(&self) -> (r: Vec<u8>)
        requires
            self.wf(),
        ensures
            r@ == root_of(self.leaves()),
    {
        proof { self.lemma_root_from(0); }
        let last = self.levels.len() - 1;
        self.levels[last][0].clone()
    }

    /// The proof for leaf `i`, carrying the root it leads to.
    pub fn gen_proof(&self, i: usize) -> (p: Proof)
        requires
            self.wf(),
            i < self.leaves().len(),
        ensures
            p.leaf@ == self.leaves()[i as int],
            p.index == i,
            p.width == self.leaves().len(),
            views(p.siblings@) == path_of(self.leaves(), i as nat),
            p.root@ == root_of(self.leaves()),
            p.valid(),
    {
        proof {
            self.lemma_root_from(0);
            lemma_path_climbs(self.leaves(), i as nat);
        }
        let mut sibs: Vec<Vec<u8>> = Vec::new();
        let mut k: usize = 0;
        let mut idx: usize = i;
        let last = self.levels.len() - 1;
        while k < last
            invariant
                self.wf(),
                last == self.levels.len() - 1,
                k <= last,
                idx < self.level(k as int).len(),
                path_of(self.leaves(), i as nat) == views(sibs@) + path_of(self.level(k as int), idx as nat),
            decreases last - k,
        {
            let lv = &self.levels[k];
            let ghost hs = self.level(k as int);
            assert(self.level(k as int + 1) == next_level(hs));
            let ghost rest = path_of(self.level(k as int + 1), (idx / 2) as nat);
            let ghost pre = sibs@;
            if idx % 2 == 1 {
                sibs.push(lv[idx - 1].clone());
                assert(views(sibs@) =~= views(pre) + seq![hs[idx - 1]]);
            } else if idx + 1 < lv.len() {
                sibs.push(lv[idx + 1].clone());
                assert(views(sibs@) =~= views(pre) + seq![hs[idx as int + 1]]);
            }
            proof {
                assert(views(sibs@) + rest =~= views(pre) + path_of(hs, idx as nat));
            }
            idx = idx / 2;
            k = k + 1;
        }
        assert(path_of(self.level(last as int), idx as nat) =~= Seq::<Seq<u8>>::empty());
        assert(views(sibs@) + Seq::<Seq<u8>>::empty() =~= views(sibs@));
        let leaf = self.levels[0][i].clone();
        Proof { leaf, index: i, width: self.levels[0].len(), siblings: sibs, root: self.root() }
    }
}

/// Whether `p` authenticates `shard`: the shard hashes to the proof's leaf
/// and the siblings lead from that leaf to the proof's root.
pub fn verify_proof(p: &Proof, shard: &[u8]) -> (r: bool)
    ensures
        r == (p.leaf@ == sha256(shard@) && p.valid()),
{
    let hashed = do_hash(shard);
    if !crate::votes::same_bytes(&hashed, &p.leaf) {
        return false;
    }
    let mut h = p.leaf.clone();
    let mut idx: usize = p.index;
    let mut width: usize = p.width;
    let mut s: usize = 0;
    assert(views(p.siblings@).subrange(0, p.siblings.len() as int) =~= views(p.siblings@));
    while width > 1
        invariant
            p.leaf@ == sha256(shard@),
            s <= p.siblings.len(),
            climb(h@, idx as nat, width as nat, views(p.siblings@).subrange(s as int, p.siblings.len() as int))
                == climb(p.leaf@, p.index as nat, p.width as nat, views(p.siblings@)),
        decreases width,
    {
        let ghost rest = views(p.siblings@).subrange(s as int, p.siblings.len() as int);
        if idx % 2 == 1 || idx + 1 < width {
            if s == p.siblings.len() {
                assert(rest.len() == 0);
                let empty: Vec<u8> = Vec::new();
                assert(empty@ =~= Seq::<u8>::empty());
                assert(climb(h@, idx as nat, width as nat, rest) == Seq::<u8>::empty());
                return crate::votes::same_bytes(&empty, &p.root);
            }
            let mut both: Vec<u8>;
            if idx % 2 == 1 {
                both = p.siblings[s].clone();
                let mut right = h.clone();
                both.append(&mut right);
            } else {
                both = h.clone();
                let mut right = p.siblings[s].clone();
                both.append(&mut right);
            }
            h = do_hash(both.as_slice());
            assert(rest.drop_first() =~= views(p.siblings@).subrange(s as int + 1, p.siblings.len() as int));
            s = s + 1;
        }
        idx = idx / 2;
        width = width / 2 + width % 2;
    }
    assert(views(p.siblings@).subrange(0, p.siblings.len() as int) =~= views(p.siblings@));
    crate::votes::same_bytes(&h, &p.root)
}

/// The hashes of the shards, the leaves of their tree.
pub open spec fn leaf_hashes(shards: Seq<Seq<u8>>) -> Seq<Seq<u8>> {
    shards.map_values(|s: Seq<u8>| sha256(s))
}

/// Merkle round trip, in the direction that needs no assumption on the hash:
/// for any shards, the path of shard `i` in their tree checks out for shard
/// `i` against the tree's root. (The converse, that no other shard or index
/// passes, rests on the hash being collision resistant.)
pub proof fn lemma_merkle_round_trip(shards: Seq<Seq<u8>>, i: nat)
    requires
        i < shards.len(),
    ensures
        climb(sha256(shards[i as int]), i, shards.len(), path_of(leaf_hashes(shards), i))
            == root_of(leaf_hashes(shards)),
{
    lemma_path_climbs(leaf_hashes(shards), i);
}

/// The tree over the hashes of `shards`; there must be at least one.
pub fn construct_merkle_tree(shards: &Vec<Vec<u8>>) -> (t: MerkleTree)
    requires
        shards.len() >= 1,
    ensures
        t.wf(),
        t.leaves() == leaf_hashes(views(shards@)),
{
    let mut hashes: Vec<Vec<u8>> = Vec::new();
    let mut i: usize = 0;
    while i < shards.len()
        invariant
            i <= shards.len(),
            hashes.len() == i,
            forall|j: int| 0 <= j < i ==> #[trigger] hashes@[j]@ == sha256(shards@[j]@),
        decreases shards.len() - i,
    {
        hashes.push(do_hash(shards[i].as_slice()));
        i = i + 1;
    }
    assert(views(hashes@) =~= leaf_hashes(views(shards@)));
    MerkleTree::new(hashes)
}

} // verus!
