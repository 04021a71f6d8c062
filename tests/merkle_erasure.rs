use rbc::erasure::{get_shards, reconstruct_payload};
use rbc::merkle::{construct_merkle_tree, verify_proof, MerkleTree};

fn hex(b: &[u8]) -> String {
    b.iter().map(|x| format!("{:02x}", x)).collect()
}

#[test]
fn single_leaf_root_is_the_sha256_of_the_shard() {
    let tree = construct_merkle_tree(&vec![b"abc".to_vec()]);
    assert_eq!(
        hex(&tree.root()),
        "ba7816bf8f01cfea414140de5dae2223b00361a396177a9cb410ff61f20015ad"
    );
}

#[test]
fn merkle_proofs_round_trip_for_every_index() {
    for n in 1..=9usize {
        let shards: Vec<Vec<u8>> = (0..n).map(|i| vec![i as u8, 7, (i * 3) as u8]).collect();
        let tree = construct_merkle_tree(&shards);
        let root = tree.root();
        for i in 0..n {
            let p = tree.gen_proof(i);
            assert_eq!(p.root, root);
            assert_eq!(p.index, i);
            assert!(verify_proof(&p, &shards[i]));
            // Another shard does not pass under this proof.
            let other = shards[(i + 1) % n].clone();
            if n > 1 {
                assert!(!verify_proof(&p, &other));
            }
            // A proof moved to another index fails.
            if n > 1 {
                let mut moved = p.copy();
                moved.index = (i + 1) % n;
                assert!(!verify_proof(&moved, &shards[i]));
            }
        }
    }
}

#[test]
fn tampered_sibling_breaks_the_proof() {
    let shards: Vec<Vec<u8>> = (0..4u8).map(|i| vec![i; 4]).collect();
    let tree = construct_merkle_tree(&shards);
    let mut p = tree.gen_proof(2);
    p.siblings[0][0] ^= 0xff;
    assert!(!verify_proof(&p, &shards[2]));
}

#[test]
fn tree_levels_shrink_to_one_root() {
    let hashes: Vec<Vec<u8>> = (0..5u8).map(|i| vec![i]).collect();
    let t = MerkleTree::new(hashes);
    let sizes: Vec<usize> = t.levels.iter().map(|l| l.len()).collect();
    assert_eq!(sizes, vec![5, 3, 2, 1]);
}

fn subsets(n: usize, k: usize) -> Vec<Vec<usize>> {
    let mut out = Vec::new();
    for mask in 0u32..(1 << n) {
        if mask.count_ones() as usize == k {
            out.push((0..n).filter(|i| mask & (1 << i) != 0).collect());
        }
    }
    out
}

#[test]
fn any_f_plus_one_shards_rebuild_the_payload() {
    for (n, f) in [(4usize, 1usize), (7, 2)] {
        let k = f + 1;
        let payload: Vec<u8> = (0..23u8).map(|x| x.wrapping_mul(37)).collect();
        let shards = get_shards(payload.clone(), k, n - k);
        assert_eq!(shards.len(), n);
        for s in subsets(n, k) {
            let mut got: Vec<Option<Vec<u8>>> = vec![None; n];
            for i in s {
                got[i] = Some(shards[i].clone());
            }
            assert_eq!(reconstruct_payload(got, k, n - k), Some(payload.clone()));
        }
    }
}

#[test]
fn parity_shards_alone_rebuild_the_payload() {
    let payload = b"parity".to_vec();
    let shards = get_shards(payload.clone(), 2, 2);
    assert_ne!(shards[2], vec![0u8; shards[2].len()]);
    let got = vec![None, None, Some(shards[2].clone()), Some(shards[3].clone())];
    assert_eq!(reconstruct_payload(got, 2, 2), Some(payload));
}

#[test]
fn shards_frame_the_payload() {
    let shards = get_shards(b"hello".to_vec(), 2, 2);
    // "hello", a 1, then zeros to 6 bytes: shards of 3.
    assert_eq!(shards[0], b"hel".to_vec());
    assert_eq!(shards[1], vec![b'l', b'o', 1]);
    let empty = get_shards(vec![], 3, 1);
    assert_eq!(empty[0], vec![1]);
    assert_eq!(empty[1], vec![0]);
    let all = vec![Some(empty[0].clone()), Some(empty[1].clone()), Some(empty[2].clone()), None];
    assert_eq!(reconstruct_payload(all, 3, 1), Some(vec![]));
}

#[test]
fn too_few_or_malformed_shards_give_nothing() {
    let shards = get_shards(b"abc".to_vec(), 2, 2);
    let one = vec![Some(shards[0].clone()), None, None, None];
    assert_eq!(reconstruct_payload(one, 2, 2), None);
    // Data shards of zeros have no frame marker.
    let zeros = vec![Some(vec![0u8; 2]), Some(vec![0u8; 2]), None, None];
    assert_eq!(reconstruct_payload(zeros, 2, 2), None);
}
