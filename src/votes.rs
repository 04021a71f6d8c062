//! A tally of distinct senders per value, as used for echoes and readies.
use vstd::prelude::*;

verus! {

/// Byte-wise equality of two byte strings.
pub fn same_bytes(a: &Vec<u8>, b: &Vec<u8>) -> (r: bool)
    ensures
        r == (a@ == b@),
{
    if a.len() != b.len() {
        return false;
    }
    let mut i: usize = 0;
    while i < a.len()
        invariant
            a.len() == b.len(),
            i <= a.len(),
            forall|j: int| 0 <= j < i ==> a@[j] == b@[j],
        decreases a.len() - i,
    {
        if a[i] != b[i] {
            return false;
        }
        i = i + 1;
    }
    assert(a@ =~= b@);
    true
}

/// For each value seen, the distinct senders that voted for it.
pub struct Votes {
    pub keys: Vec<Vec<u8>>,
    pub senders: Vec<Vec<usize>>,
}

impl Votes {
    pub open spec fn key_at(self, i: int) -> Seq<u8> {
        self.keys@[i]@
    }

    pub open spec fn group_at(self, i: int) -> Seq<usize> {
        self.senders@[i]@
    }

    pub open spec fn wf(self) -> bool {
        &&& self.keys.len() == self.senders.len()
        &&& forall|i: int, j: int|
            0 <= i < j < self.keys.len() ==> #[trigger] self.key_at(i) != #[trigger] self.key_at(j)
        &&& forall|i: int| 0 <= i < self.keys.len() ==> (#[trigger] self.group_at(i)).no_duplicates()
    }

    pub open spec fn has_key(self, p: Seq<u8>) -> bool {
        exists|i: int| 0 <= i < self.keys.len() && #[trigger] self.key_at(i) == p
    }

    /// The senders that voted for `p`, in arrival order.
    pub open spec fn voters(self, p: Seq<u8>) -> Seq<usize> {
        if self.has_key(p) {
            self.group_at(choose|i: int| 0 <= i < self.keys.len() && #[trigger] self.key_at(i) == p)
        } else {
            Seq::empty()
        }
    }

    /// The senders that voted for `p`, as a set.
    pub open spec fn voter_set(self, p: Seq<u8>) -> Set<usize> {
        self.voters(p).to_set()
    }

    /// Every sender lies in `0..n`.
    pub open spec fn senders_below(self, n: nat) -> bool {
        forall|i: int, k: int|
            0 <= i < self.senders.len() && 0 <= k < self.group_at(i).len() ==> (
            #[trigger] self.group_at(i)[k] as int) < n
    }

    pub open spec fn same_tally(self, other: Votes) -> bool {
        &&& self.keys@.len() == other.keys@.len()
        &&& self.senders@.len() == other.senders@.len()
        &&& forall|i: int| 0 <= i < self.keys.len() ==> #[trigger] self.key_at(i) == other.key_at(i)
        &&& forall|i: int| 0 <= i < self.senders.len() ==> #[trigger] self.group_at(i) == other.group_at(i)
    }

    pub proof fn lemma_voters_at(self, i: int)
        requires
            self.wf(),
            0 <= i < self.keys.len(),
        ensures
            self.voters(self.key_at(i)) == self.group_at(i),
    {
        let p = self.key_at(i);
        assert(self.has_key(p));
        let j = choose|j: int| 0 <= j < self.keys.len() && #[trigger] self.key_at(j) == p;
        if j < i {
            assert(self.key_at(j) != self.key_at(i));
        } else if i < j {
            assert(self.key_at(i) != self.key_at(j));
        }
    }

    pub proof fn lemma_push_to_set(g: Seq<usize>, s: usize)
        ensures
            g.push(s).to_set() == g.to_set().insert(s),
    {
        assert forall|x: usize| g.push(s).to_set().contains(x) <==> g.to_set().insert(s).contains(x) by {
            if g.push(s).contains(x) && x != s {
                let k = g.push(s).index_of(x);
                assert(g[k] == x);
            }
            if g.contains(x) {
                let k = g.index_of(x);
                assert(g.push(s)[k] == x);
            }
            if x == s {
                assert(g.push(s)[g.len() as int] == s);
            }
        }
        assert(g.push(s).to_set() =~= g.to_set().insert(s));
    }

    /// The count of distinct voters for `p`.
    pub proof fn lemma_voter_count(self, p: Seq<u8>)
        requires
            self.wf(),
        ensures
            self.voter_set(p).len() == self.voters(p).len(),
            self.voter_set(p).finite(),
    {
        if self.has_key(p) {
            let i = choose|i: int| 0 <= i < self.keys.len() && #[trigger] self.key_at(i) == p;
            self.group_at(i).unique_seq_to_set();
        } else {
            assert(self.voters(p).to_set() =~= Set::empty());
        }
        vstd::seq_lib::seq_to_set_is_finite(self.voters(p));
    }

    pub proof fn lemma_voters_below(self, p: Seq<u8>, n: nat)
        requires
            self.wf(),
            self.senders_below(n),
        ensures
            forall|x: usize| #[trigger] self.voter_set(p).contains(x) ==> (x as int) < n,
    {
        if self.has_key(p) {
            let i = choose|i: int| 0 <= i < self.keys.len() && #[trigger] self.key_at(i) == p;
            assert forall|x: usize| #[trigger] self.voter_set(p).contains(x) implies (x as int) < n by {
                let k = self.group_at(i).index_of(x);
                assert(self.group_at(i)[k] == x);
            }
        }
    }

    pub fn new() -> (r: Votes)
        ensures
            r.wf(),
            r.senders_below(0),
            forall|p: Seq<u8>| #[trigger] r.voters(p) == Seq::<usize>::empty(),
    {
        Votes { keys: Vec::new(), senders: Vec::new() }
    }

    /// The position of `p`'s group, if `p` has one.
    pub fn find(&self, p: &Vec<u8>) -> (r: Option<usize>)
        requires
            self.wf(),
        ensures
            r is None <==> !self.has_key(p@),
            r matches Some(i) ==> i < self.keys.len() && self.key_at(i as int) == p@,
    {
        let mut i: usize = 0;
        while i < self.keys.len()
            invariant
                i <= self.keys.len(),
                forall|j: int| 0 <= j < i ==> #[trigger] self.key_at(j) != p@,
            decreases self.keys.len() - i,
        {
            if same_bytes(&self.keys[i], p) {
                assert(self.key_at(i as int) == p@);
                return Some(i);
            }
            i = i + 1;
        }
        None
    }

    /// How many distinct senders voted for `p`.
    pub fn count(&self, p: &Vec<u8>) -> (r: usize)
        requires
            self.wf(),
        ensures
            r == self.voters(p@).len(),
    {
        match self.find(p) {
            Some(i) => {
                proof { self.lemma_voters_at(i as int); }
                self.senders[i].len()
            },
            None => 0,
        }
    }

    /// Records that `s` voted for `p`; returns whether the vote is new.
    pub fn add(&mut self, s: usize, p: &Vec<u8>) -> (r: bool)
        requires
            old(self).wf(),
        ensures
            final(self).wf(),
            r == !old(self).voters(p@).contains(s),
            r ==> final(self).voters(p@) == old(self).voters(p@).push(s),
            final(self).voter_set(p@) == old(self).voter_set(p@).insert(s),
            !r ==> *final(self) == *old(self),
            forall|q: Seq<u8>| q != p@ ==> #[trigger] final(self).voters(q) == old(self).voters(q),
            forall|n: nat| old(self).senders_below(n) && (s as int) < n ==> #[trigger] final(self).senders_below(n),
    {
        let ghost pre = *self;
        match self.find(p) {
            Some(i) => {
                proof { self.lemma_voters_at(i as int); }
                let mut j: usize = 0;
                while j < self.senders[i].len()
                    invariant
                        i < self.senders.len(),
                        *self == pre,
                        pre.wf(),
                        self.voters(p@) == self.group_at(i as int),
                        j <= self.senders[i as int].len(),
                        forall|k: int| 0 <= k < j ==> self.senders[i as int]@[k] != s,
                    decreases self.senders[i as int].len() - j,
                {
                    if self.senders[i][j] == s {
                        assert(self.voters(p@)[j as int] == s);
                        assert(pre.voter_set(p@).insert(s) =~= pre.voter_set(p@));
                        return false;
                    }
                    j = j + 1;
                }
                assert(!self.voters(p@).contains(s));
                let mut g = self.senders.remove(i);
                g.push(s);
                self.senders.insert(i, g);
                proof {
                    assert forall|k: int| 0 <= k < self.senders.len() && k != i implies #[trigger] self.group_at(k) == pre.group_at(k) by {}
                    assert(self.group_at(i as int) == pre.group_at(i as int).push(s));
                    assert forall|a: int, b: int| 0 <= a < b < self.keys.len() implies #[trigger] self.key_at(a) != #[trigger] self.key_at(b) by {
                        assert(pre.key_at(a) != pre.key_at(b));
                    }
                    assert(self.wf());
                    self.lemma_voters_at(i as int);
                    Self::lemma_push_to_set(pre.voters(p@), s);
                    assert forall|q: Seq<u8>| q != p@ implies #[trigger] self.voters(q) == pre.voters(q) by {
                        if pre.has_key(q) {
                            let k = choose|k: int| 0 <= k < pre.keys.len() && #[trigger] pre.key_at(k) == q;
                            pre.lemma_voters_at(k);
                            self.lemma_voters_at(k);
                        } else {
                            assert forall|k: int| 0 <= k < self.keys.len() implies #[trigger] self.key_at(k) != q by {
                                assert(self.key_at(k) == pre.key_at(k));
                            }
                        }
                    }
                    assert forall|n: nat| pre.senders_below(n) && (s as int) < n implies #[trigger] self.senders_below(n) by {
                        assert forall|a: int, k: int|
                            0 <= a < self.senders.len() && 0 <= k < self.group_at(a).len() implies (
                            #[trigger] self.group_at(a)[k] as int) < n by {
                            if a != i || k < pre.group_at(a).len() {
                                assert(self.group_at(a)[k] == pre.group_at(a)[k]);
                            }
                        }
                    }
                }
                true
            },
            None => {
                let mut g: Vec<usize> = Vec::new();
                g.push(s);
                let key = p.clone();
                self.keys.push(key);
                self.senders.push(g);
                proof {
                    let i = pre.keys.len() as int;
                    assert(self.key_at(i) == p@);
                    assert(self.group_at(i) =~= seq![s]);
                    assert(pre.voters(p@) =~= Seq::<usize>::empty());
                    assert forall|k: int| 0 <= k < i implies #[trigger] self.key_at(k) == pre.key_at(k) && self.group_at(k) == pre.group_at(k) by {}
                    assert forall|a: int, b: int| 0 <= a < b < self.keys.len() implies #[trigger] self.key_at(a) != #[trigger] self.key_at(b) by {
                        if b < i {
                            assert(pre.key_at(a) != pre.key_at(b));
                        } else {
                            assert(pre.key_at(a) != p@);
                        }
                    }
                    assert(seq![s].no_duplicates());
                    assert forall|k: int| 0 <= k < self.keys.len() implies (#[trigger] self.group_at(k)).no_duplicates() by {
                        if k < i {
                            assert(self.group_at(k) == pre.group_at(k));
                        }
                    }
                    assert(self.wf());
                    self.lemma_voters_at(i);
                    assert(self.voters(p@) =~= pre.voters(p@).push(s));
                    Self::lemma_push_to_set(pre.voters(p@), s);
                    assert forall|q: Seq<u8>| q != p@ implies #[trigger] self.voters(q) == pre.voters(q) by {
                        if pre.has_key(q) {
                            let k = choose|k: int| 0 <= k < pre.keys.len() && #[trigger] pre.key_at(k) == q;
                            pre.lemma_voters_at(k);
                            self.lemma_voters_at(k);
                        } else {
                            assert forall|k: int| 0 <= k < self.keys.len() implies #[trigger] self.key_at(k) != q by {
                                if k < i {
                                    assert(self.key_at(k) == pre.key_at(k));
                                }
                            }
                        }
                    }
                    assert forall|n: nat| pre.senders_below(n) && (s as int) < n implies #[trigger] self.senders_below(n) by {
                        assert forall|a: int, k: int|
                            0 <= a < self.senders.len() && 0 <= k < self.group_at(a).len() implies (
                            #[trigger] self.group_at(a)[k] as int) < n by {
                            if a < i {
                                assert(self.group_at(a) == pre.group_at(a));
                            }
                        }
                    }
                }
                true
            },
        }
    }
}

} // verus!
