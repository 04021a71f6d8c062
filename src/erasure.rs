//! Erasure coding of a payload into `n` shards, any `k` of which rebuild it.
//! The payload is framed (a 1 byte and zeros are appended) and cut into `k`
//! data shards of equal length; Reed-Solomon adds the parity shards.
use vstd::prelude::*;

verus! {

/// The parity shards that Reed-Solomon over GF(2^8) computes for `data`.
pub uninterp spec fn rs_parity(data: Seq<Seq<u8>>, parity: nat) -> Seq<Seq<u8>>;

/// Data shards followed by their parity shards.
pub open spec fn encoded(data: Seq<Seq<u8>>, parity: nat) -> Seq<Seq<u8>> {
    data + rs_parity(data, parity)
}

/// `k` shards, all of one positive length.
pub open spec fn uniform(data: Seq<Seq<u8>>, k: nat) -> bool {
    &&& data.len() == k
    &&& k >= 1
    &&& data[0].len() >= 1
    &&& forall|i: int| 0 <= i < k ==> #[trigger] data[i].len() == data[0].len()
}

/// The received shards agree with `code` wherever one is present.
pub open spec fn agrees(shards: Seq<Option<Vec<u8>>>, code: Seq<Seq<u8>>) -> bool {
    &&& shards.len() == code.len()
    &&& forall|i: int| 0 <= i < shards.len() && #[trigger] shards[i] is Some ==> shards[i]->Some_0@ == code[i]
}

/// How many shards are present.
pub open spec fn present(shards: Seq<Option<Vec<u8>>>) -> nat
    decreases shards.len(),
{
    if shards.len() == 0 {
        0
    } else {
        present(shards.drop_last()) + if shards.last() is Some { 1nat } else { 0nat }
    }
}

/// The parameters that Reed-Solomon over GF(2^8) accepts.
pub open spec fn codec_ok(k: nat, parity: nat) -> bool {
    k >= 1 && parity >= 1 && k + parity <= 256
}

/// Relies on reed-solomon-erasure's `ReedSolomon::encode` (galois_8): the
/// first `k` shards are kept and the rest are overwritten with their parity.
#[verifier::external_body]
fn rs_encode(shards: &mut Vec<Vec<u8>>, k: usize, parity: usize)
    requires
        codec_ok(k as nat, parity as nat),
        old(shards)@.len() == k + parity,
        uniform(crate::merkle::views(old(shards)@), (k + parity) as nat),
    ensures
        crate::merkle::views(final(shards)@) == crate::merkle::views(old(shards)@).take(k as int) + rs_parity(
            crate::merkle::views(old(shards)@).take(k as int),
            parity as nat,
        ),
        uniform(crate::merkle::views(final(shards)@), (k + parity) as nat),
        final(shards)@[0]@.len() == old(shards)@[0]@.len(),
{
    let rs = reed_solomon_erasure::galois_8::ReedSolomon::new(k, parity).unwrap();
    rs.encode(shards).unwrap();
}

/// Relies on reed-solomon-erasure's `ReedSolomon::reconstruct_data`
/// (galois_8): when at least `k` present shards agree with the encoding of
/// some data, it succeeds and the first `k` slots hold that data.
#[verifier::external_body]
fn rs_reconstruct(shards: &mut Vec<Option<Vec<u8>>>, k: usize, parity: usize) -> (r: bool)
    requires
        codec_ok(k as nat, parity as nat),
        old(shards)@.len() == k + parity,
    ensures
        final(shards)@.len() == old(shards)@.len(),
        r ==> forall|i: int| 0 <= i < k ==> #[trigger] final(shards)@[i] is Some,
        forall|data: Seq<Seq<u8>>|
            uniform(data, k as nat) && agrees(old(shards)@, data + #[trigger] rs_parity(data, parity as nat))
                && present(old(shards)@) >= k ==> r && forall|i: int| 0 <= i < k ==> #[trigger] final(shards)@[i]
                == Some(final(shards)@[i]->Some_0) && final(shards)@[i]->Some_0@ == data[i],
{
    let rs = reed_solomon_erasure::galois_8::ReedSolomon::new(k, parity).unwrap();
    rs.reconstruct_data(shards).is_ok()
}

/// The length of each data shard for a payload of `len` bytes.
pub open spec fn shard_len(len: nat, k: nat) -> nat {
    ((len + k) as int / k as int) as nat
}

/// The payload, a 1 byte, then zeros up to `k` times the shard length.
pub open spec fn frame(p: Seq<u8>, k: nat) -> Seq<u8> {
    p + seq![1u8] + Seq::new((shard_len(p.len(), k) * k - p.len() - 1) as nat, |i: int| 0u8)
}

/// The `k` data shards of a payload.
pub open spec fn data_shards_of(p: Seq<u8>, k: nat) -> Seq<Seq<u8>> {
    let l = shard_len(p.len(), k);
    Seq::new(k, |i: int| frame(p, k).subrange(i * l, (i + 1) * l))
}

/// All `k + parity` shards of a payload.
pub open spec fn shards_of(p: Seq<u8>, k: nat, parity: nat) -> Seq<Seq<u8>> {
    encoded(data_shards_of(p, k), parity)
}

/// The payload inside a frame: what precedes the last nonzero byte, which
/// must be 1.
pub open spec fn unframe(b: Seq<u8>) -> Option<Seq<u8>>
    decreases b.len(),
{
    if b.len() == 0 {
        None
    } else if b.last() == 0 {
        unframe(b.drop_last())
    } else if b.last() == 1 {
        Some(b.drop_last())
    } else {
        None
    }
}

/// The first `i` shards, joined.
pub open spec fn concat(ds: Seq<Seq<u8>>, i: nat) -> Seq<u8>
    decreases i,
{
    if i == 0 || i > ds.len() {
        Seq::empty()
    } else {
        concat(ds, (i - 1) as nat) + ds[i - 1]
    }
}

proof fn lemma_frame_len(p: Seq<u8>, k: nat)
    requires
        k >= 1,
    ensures
        shard_len(p.len(), k) * k >= p.len() + 1,
        shard_len(p.len(), k) * k <= p.len() + k,
        shard_len(p.len(), k) >= 1,
        frame(p, k).len() == shard_len(p.len(), k) * k,
{
    let l = shard_len(p.len(), k);
    let n = p.len();
    assert(l * k >= n + 1 && l >= 1 && l * k <= n + k) by (nonlinear_arith)
        requires l == (n + k) as int / k as int, k >= 1;
}

proof fn lemma_unframe_zeros(p: Seq<u8>, z: nat)
    ensures
        unframe(p + seq![1u8] + Seq::new(z, |i: int| 0u8)) == Some(p),
    decreases z,
{
    let b = p + seq![1u8] + Seq::new(z, |i: int| 0u8);
    if z == 0 {
        assert(b.drop_last() =~= p);
    } else {
        assert(b.drop_last() =~= p + seq![1u8] + Seq::new((z - 1) as nat, |i: int| 0u8));
        lemma_unframe_zeros(p, (z - 1) as nat);
    }
}

proof fn lemma_concat_split(p: Seq<u8>, k: nat, i: nat)
    requires
        k >= 1,
        i <= k,
    ensures
        concat(data_shards_of(p, k), i) == frame(p, k).subrange(0, (i * shard_len(p.len(), k)) as int),
    decreases i,
{
    let l = shard_len(p.len(), k);
    lemma_frame_len(p, k);
    let f = frame(p, k);
    if i == 0 {
        assert(f.subrange(0, 0) =~= Seq::<u8>::empty());
    } else {
        lemma_concat_split(p, k, (i - 1) as nat);
        assert((i - 1) * l + l == i * l) by (nonlinear_arith);
        assert(((i - 1) + 1) * l == i * l) by (nonlinear_arith);
        let ds = data_shards_of(p, k);
        assert(ds[i - 1] == f.subrange((i - 1) * l, (i * l) as int));
        assert(concat(ds, i) == concat(ds, (i - 1) as nat) + ds[i - 1]);
        assert(i * l <= k * l) by (nonlinear_arith) requires i <= k;
        assert(f.subrange(0, (i - 1) * l) + f.subrange((i - 1) * l, (i * l) as int) =~= f.subrange(0, (i * l) as int));
    }
}

/// The data shards of `p` are uniform, and joined and unframed give `p` back.
proof fn lemma_data_shards(p: Seq<u8>, k: nat)
    requires
        k >= 1,
    ensures
        uniform(data_shards_of(p, k), k),
        forall|i: int| 0 <= i < k ==> #[trigger] data_shards_of(p, k)[i].len() == shard_len(p.len(), k),
        unframe(concat(data_shards_of(p, k), k)) == Some(p),
{
    let l = shard_len(p.len(), k);
    lemma_frame_len(p, k);
    let ds = data_shards_of(p, k);
    assert forall|i: int| 0 <= i < k implies #[trigger] ds[i].len() == l by {
        assert((i + 1) * l <= k * l) by (nonlinear_arith) requires i + 1 <= k;
        assert((i + 1) * l == i * l + l) by (nonlinear_arith);
        assert(0 <= i * l) by (nonlinear_arith) requires 0 <= i, l >= 0;
    }
    lemma_concat_split(p, k, k);
    assert(k * l == l * k) by (nonlinear_arith);
    assert(frame(p, k).subrange(0, (k * l) as int) =~= frame(p, k));
    lemma_unframe_zeros(p, (l * k - p.len() - 1) as nat);
}

/// Cuts `msg` into `k` data shards and adds `parity` parity shards.
pub fn get_shards(msg: Vec<u8>, k: usize, parity: usize) -> (r: Vec<Vec<u8>>)
    requires
        codec_ok(k as nat, parity as nat),
        msg.len() + k + 1 <= usize::MAX,
    ensures
        crate::merkle::views(r@) == shards_of(msg@, k as nat, parity as nat),
        uniform(crate::merkle::views(r@), (k + parity) as nat),
{
    proof {
        lemma_frame_len(msg@, k as nat);
        lemma_data_shards(msg@, k as nat);
    }
    let l: usize = (msg.len() + k) / k;
    let ghost fr = frame(msg@, k as nat);
    let mut framed = msg.clone();
    framed.push(1u8);
    assert(framed@ =~= fr.subrange(0, framed.len() as int));
    let total: usize = l * k;
    while framed.len() < total
        invariant
            fr == frame(msg@, k as nat),
            total == l * k,
            total == fr.len(),
            msg@.len() + 1 <= framed.len() <= total,
            framed@ == fr.subrange(0, framed.len() as int),
        decreases total - framed.len(),
    {
        assert(fr[framed.len() as int] == 0u8) by {
            let z = (l * k - msg@.len() - 1) as nat;
            assert(fr == msg@ + seq![1u8] + Seq::new(z, |i: int| 0u8));
            assert((msg@ + seq![1u8]).len() == msg@.len() + 1);
        }
        framed.push(0u8);
        assert(framed@ =~= fr.subrange(0, framed.len() as int));
    }
    assert(framed@ == fr.subrange(0, fr.len() as int));
    let mut shards: Vec<Vec<u8>> = Vec::new();
    let mut i: usize = 0;
    while i < k
        invariant
            fr == frame(msg@, k as nat),
            total == l * k,
            framed@ =~= fr,
            fr.len() == l * k,
            l == shard_len(msg@.len(), k as nat),
            l >= 1,
            i <= k,
            shards.len() == i,
            forall|j: int| 0 <= j < i ==> #[trigger] shards@[j]@ == data_shards_of(msg@, k as nat)[j],
        decreases k - i,
    {
        assert((i + 1) * l <= k * l) by (nonlinear_arith) requires i + 1 <= k;
        assert((i + 1) * l == i * l + l) by (nonlinear_arith);
        assert(l * k == k * l) by (nonlinear_arith);
        let start: usize = i * l;
        let end: usize = start + l;
        let mut s: Vec<u8> = Vec::new();
        let mut j: usize = start;
        while j < end
            invariant
                framed@ =~= fr,
                fr.len() == l * k,
                end <= fr.len(),
                start <= j <= end,
                s@ == fr.subrange(start as int, j as int),
            decreases end - j,
        {
            s.push(framed[j]);
            assert(s@ =~= fr.subrange(start as int, j + 1));
            j = j + 1;
        }
        assert(s@ == data_shards_of(msg@, k as nat)[i as int]);
        shards.push(s);
        i = i + 1;
    }
    let mut p: usize = 0;
    while p < parity
        invariant
            shards.len() == k + p,
            p <= parity,
            l >= 1,
            forall|j: int| 0 <= j < k ==> #[trigger] shards@[j]@ == data_shards_of(msg@, k as nat)[j],
            forall|j: int| k <= j < k + p ==> #[trigger] shards@[j]@.len() == l,
            forall|j: int| 0 <= j < k ==> #[trigger] data_shards_of(msg@, k as nat)[j].len() == l,
        decreases parity - p,
    {
        shards.push(vec![0u8; l]);
        p = p + 1;
    }
    proof {
        let v = crate::merkle::views(shards@);
        assert(v.take(k as int) =~= data_shards_of(msg@, k as nat));
        assert forall|j: int| 0 <= j < k + parity implies #[trigger] v[j].len() == v[0].len() by {}
    }
    rs_encode(&mut shards, k, parity);
    shards
}

/// The view of an optional byte string.
pub open spec fn opt_view(r: Option<Vec<u8>>) -> Option<Seq<u8>> {
    match r {
        Some(v) => Some(v@),
        None => None,
    }
}

/// The contents of the first `k` slots.
pub open spec fn slots(shards: Seq<Option<Vec<u8>>>, k: nat) -> Seq<Seq<u8>> {
    Seq::new(k, |i: int| shards[i]->Some_0@)
}

/// The payload inside a frame, as `unframe` says.
fn unframe_bytes(b: &Vec<u8>) -> (r: Option<Vec<u8>>)
    ensures
        opt_view(r) == unframe(b@),
{
    let mut e: usize = b.len();
    assert(b@.take(e as int) =~= b@);
    while e > 0 && b[e - 1] == 0
        invariant
            e <= b.len(),
            unframe(b@.take(e as int)) == unframe(b@),
        decreases e,
    {
        assert(b@.take(e as int).drop_last() =~= b@.take(e - 1));
        e = e - 1;
    }
    if e == 0 {
        return None;
    }
    if b[e - 1] != 1 {
        return None;
    }
    let mut out: Vec<u8> = Vec::new();
    let mut j: usize = 0;
    while j < e - 1
        invariant
            e <= b.len(),
            j <= e - 1,
            out@ == b@.take(j as int),
        decreases e - 1 - j,
    {
        out.push(b[j]);
        assert(out@ =~= b@.take(j + 1));
        j = j + 1;
    }
    assert(b@.take(e as int).drop_last() =~= out@);
    Some(out)
}

/// The first `k` slots joined, then unframed; `None` if one is empty or the
/// frame is malformed.
fn join_data(shards: &Vec<Option<Vec<u8>>>, k: usize) -> (r: Option<Vec<u8>>)
    requires
        k <= shards.len(),
    ensures
        (forall|i: int| 0 <= i < k ==> #[trigger] shards@[i] is Some) ==> opt_view(r) == unframe(
            concat(slots(shards@, k as nat), k as nat),
        ),
{
    let mut all: Vec<u8> = Vec::new();
    let mut i: usize = 0;
    while i < k
        invariant
            k <= shards.len(),
            i <= k,
            all@ == concat(slots(shards@, k as nat), i as nat),
        decreases k - i,
    {
        match &shards[i] {
            Some(s) => {
                let mut c = s.clone();
                all.append(&mut c);
            },
            None => {
                return None;
            },
        }
        i = i + 1;
    }
    unframe_bytes(&all)
}

/// Rebuilds a payload from the shards received, `None` where a slot is
/// missing. Whenever at least `k` present shards agree with the shards of
/// some payload, that payload comes back exactly.
pub fn reconstruct_payload(shards: Vec<Option<Vec<u8>>>, k: usize, parity: usize) -> (r: Option<Vec<u8>>)
    requires
        codec_ok(k as nat, parity as nat),
        shards@.len() == k + parity,
    ensures
        forall|p: Seq<u8>|
            agrees(shards@, #[trigger] shards_of(p, k as nat, parity as nat)) && present(shards@) >= k
                ==> opt_view(r) == Some(p),
{
    let ghost given = shards@;
    let mut slots_now = shards;
    let ok = rs_reconstruct(&mut slots_now, k, parity);
    if !ok {
        proof {
            assert forall|p: Seq<u8>|
                agrees(given, #[trigger] shards_of(p, k as nat, parity as nat)) && present(given) >= k
                    implies opt_view(None::<Vec<u8>>) == Some(p) by {
                lemma_data_shards(p, k as nat);
            }
        }
        return None;
    }
    let r = join_data(&slots_now, k);
    proof {
        assert forall|p: Seq<u8>|
            agrees(given, #[trigger] shards_of(p, k as nat, parity as nat)) && present(given) >= k
                implies opt_view(r) == Some(p) by {
            lemma_data_shards(p, k as nat);
            let ds = data_shards_of(p, k as nat);
            assert(slots(slots_now@, k as nat) =~= ds);
        }
    }
    r
}

} // verus!
