//! Fault bounds, the two thresholds of the protocol, and the counting facts
//! that make them safe.
use vstd::prelude::*;
use vstd::set_lib::*;

verus! {

/// The size of the system: `n` replicas, of which at most `f` may be faulty.
#[derive(Clone, Copy, Debug, PartialEq, Eq)]
pub struct Params {
    pub n: usize,
    pub f: usize,
}

impl Params {
    /// The system tolerates its fault bound: `n >= 3f + 1`.
    pub open spec fn wf(self) -> bool {
        self.n >= 3 * self.f + 1
    }

    /// Distinct senders needed to echo-commit or to deliver.
    pub open spec fn quorum_spec(self) -> nat {
        (self.n - self.f) as nat
    }

    /// Distinct senders that guarantee at least one honest one.
    pub open spec fn weak_spec(self) -> nat {
        (self.f + 1) as nat
    }

    pub fn new(n: usize, f: usize) -> (r: Option<Params>)
        ensures
            r is Some <==> n >= 3 * (f as int) + 1,
            r matches Some(p) ==> p.n == n && p.f == f && p.wf(),
    {
        if f <= (usize::MAX - 1) / 3 && n >= 3 * f + 1 {
            Some(Params { n, f })
        } else {
            None
        }
    }

    /// `n - f`, the honest-majority threshold.
    pub fn quorum(&self) -> (r: usize)
        requires
            self.wf(),
        ensures
            r == self.quorum_spec(),
    {
        self.n - self.f
    }

    /// `f + 1`, the threshold that is enough to reconstruct and to amplify.
    pub fn weak(&self) -> (r: usize)
        requires
            self.wf(),
        ensures
            r == self.weak_spec(),
    {
        self.f + 1
    }
}

/// The replicas `0..n` as a set.
pub open spec fn replicas(n: nat) -> Set<usize> {
    Set::new(|x: usize| (x as int) < n)
}

pub proof fn lemma_replicas_finite(n: nat)
    requires
        n <= usize::MAX + 1,
    ensures
        replicas(n).finite(),
        replicas(n).len() == n,
    decreases n,
{
    if n == 0 {
        assert(replicas(0) =~= Set::<usize>::empty());
    } else {
        lemma_replicas_finite((n - 1) as nat);
        let x = (n - 1) as usize;
        assert(replicas(n) =~= replicas((n - 1) as nat).insert(x));
    }
}

/// Quorum intersection: two sets of at least `n - f` replicas each, out of `n`,
/// share at least one replica outside any set of at most `f` faulty ones. So two
/// quorums for two values cannot both be formed by honest nodes that vote once.
pub proof fn lemma_quorums_share_honest(p: Params, a: Set<usize>, b: Set<usize>, faulty: Set<usize>)
    requires
        p.wf(),
        a.subset_of(replicas(p.n as nat)),
        b.subset_of(replicas(p.n as nat)),
        a.len() >= p.quorum_spec(),
        b.len() >= p.quorum_spec(),
        faulty.finite(),
        faulty.len() <= p.f,
    ensures
        exists|x: usize| a.contains(x) && b.contains(x) && !faulty.contains(x),
{
    lemma_replicas_finite(p.n as nat);
    let all = replicas(p.n as nat);
    lemma_len_subset(a, all);
    lemma_len_subset(b, all);
    lemma_set_intersect_union_lens(a, b);
    lemma_len_subset(a + b, all);
    let both = a.intersect(b);
    assert(both.len() >= p.f + 1);
    lemma_set_difference_len(both, faulty);
    let rest = both.difference(faulty);
    assert(rest.len() >= 1) by {
        lemma_len_subset(both.intersect(faulty), faulty);
        assert(both.difference(faulty).len() + both.intersect(faulty).len() == both.len()) by {
            lemma_set_intersect_union_lens(both.difference(faulty), both.intersect(faulty));
            assert(both.difference(faulty) + both.intersect(faulty) =~= both);
            assert(both.difference(faulty).intersect(both.intersect(faulty)) =~= Set::empty());
        }
    }
    lemma_set_empty_equivalency_len(rest);
    let x = rest.choose();
    assert(rest.contains(x));
}

/// A set of at least `f + 1` replicas holds one outside any set of at most `f`
/// faulty ones: `f + 1` readies always include an honest one.
pub proof fn lemma_weak_has_honest(p: Params, a: Set<usize>, faulty: Set<usize>)
    requires
        p.wf(),
        a.finite(),
        a.len() >= p.weak_spec(),
        faulty.finite(),
        faulty.len() <= p.f,
    ensures
        exists|x: usize| a.contains(x) && !faulty.contains(x),
{
    lemma_len_subset(a.intersect(faulty), faulty);
    lemma_set_intersect_union_lens(a.difference(faulty), a.intersect(faulty));
    assert(a.difference(faulty) + a.intersect(faulty) =~= a);
    assert(a.difference(faulty).intersect(a.intersect(faulty)) =~= Set::empty());
    let rest = a.difference(faulty);
    lemma_set_empty_equivalency_len(rest);
    let x = rest.choose();
    assert(rest.contains(x));
}

/// Agreement: if payloads `d1` and `d2` each gather readies from `n - f`
/// replicas, and no replica outside the at most `f` faulty ones readies two
/// different payloads (an honest replica sends one READY per instance), then
/// `d1 == d2`. So two honest replicas never deliver different payloads.
pub proof fn lemma_agreement(
    p: Params,
    d1: Seq<u8>,
    d2: Seq<u8>,
    r1: Set<usize>,
    r2: Set<usize>,
    faulty: Set<usize>,
)
    requires
        p.wf(),
        r1.subset_of(replicas(p.n as nat)),
        r2.subset_of(replicas(p.n as nat)),
        r1.len() >= p.quorum_spec(),
        r2.len() >= p.quorum_spec(),
        faulty.finite(),
        faulty.len() <= p.f,
        forall|x: usize| r1.contains(x) && r2.contains(x) && !faulty.contains(x) ==> d1 == d2,
    ensures
        d1 == d2,
{
    lemma_quorums_share_honest(p, r1, r2, faulty);
}

} // verus!
