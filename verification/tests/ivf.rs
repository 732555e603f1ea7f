use rinha2026::ivf::top::Top;
use rinha2026::ivf::{choose_clusters, has_other_dim, IvfIndex, LoadErr};

/// An index of two clusters: nine vectors in the first and two in the second.
fn file() -> Vec<u8> {
    let mut s: Vec<u8> = Vec::new();
    for x in [0x484E_4952u32, 3, 11, 14, 2, 10000, 0, 0] {
        s.extend_from_slice(&x.to_le_bytes());
    }
    for c in 0..2 {
        for d in 0..14 {
            s.extend_from_slice(&((100 * c + d) as f32).to_le_bytes());
        }
    }
    for x in [9u32, 2, 0, 9, 11, 0, 126, 154] {
        s.extend_from_slice(&x.to_le_bytes());
    }
    for d in 0..14 {
        for lane in 0..8 {
            s.extend_from_slice(&((10 * lane + d) as i16).to_le_bytes());
        }
    }
    for v in [8, 9, 10] {
        for d in 0..14 {
            s.extend_from_slice(&((-10 * v - d) as i16).to_le_bytes());
        }
    }
    s.extend_from_slice(&[1, 0, 1, 0, 1, 0, 1, 0, 1, 0, 1]);
    s
}

fn load(bytes: &[u8]) -> IvfIndex {
    match IvfIndex::load(bytes, 192) {
        Ok(i) => i,
        Err(e) => panic!("{:?}", e),
    }
}

fn load_err(bytes: &[u8]) -> LoadErr {
    match IvfIndex::load(bytes, 192) {
        Ok(_) => panic!("loaded"),
        Err(e) => e,
    }
}

#[test]
fn an_inverted_file_is_loaded() {
    let s = file();
    assert!(!has_other_dim(&s));
    let i = load(&s);
    assert_eq!((i.n_total, i.dim, i.n_clusters, i.scale, i.nprobe), (11, 14, 2, 10000, 192));
    assert_eq!((i.n_total(), i.dim(), i.n_clusters()), (11, 14, 2));
    assert_eq!((i.scale(), i.nprobe()), (10000, 192));
    assert!(i.is_scannable());
    assert_eq!(f32::from_bits(i.centroid(0, 13)), 13.0);
    assert_eq!(f32::from_bits(i.centroid(1, 2)), 102.0);
    assert_eq!((i.cluster_size(0), i.cluster_size(1)), (9, 2));
    assert_eq!(i.cluster_vector(0, 3), [30, 31, 32, 33, 34, 35, 36, 37, 38, 39, 40, 41, 42, 43]);
    assert_eq!(i.cluster_vector(0, 8)[0], -80);
    assert_eq!(i.cluster_vector(1, 0)[13], -103);
    assert_eq!(i.cluster_vector(1, 1)[1], -101);
}

#[test]
fn files_that_are_no_inverted_file() {
    let s = file();
    assert_eq!(load_err(&s[..31]), LoadErr::Truncated);
    assert_eq!(load_err(&s[..s.len() - 1]), LoadErr::Truncated);
    let mut bad = s.clone();
    bad[0] = 0;
    assert_eq!(load_err(&bad), LoadErr::BadMagic);
    let mut bad = s.clone();
    bad[4] = 2;
    assert_eq!(load_err(&bad), LoadErr::BadVersion);
    let mut bad = s.clone();
    bad[12] = 13;
    assert!(has_other_dim(&bad));
    bad[4] = 2;
    assert!(!has_other_dim(&bad));
}

#[test]
fn clusters_out_of_range() {
    let mut s = file();
    let sizes = 32 + 2 * 56;
    s[sizes] = 12;
    assert!(!load(&s).is_scannable());
}

#[test]
fn nearest_clusters() {
    let keys = vec![50u32, 10, 40, 10, 30, 20];
    for n in 1..9u32 {
        let mut chosen = choose_clusters(&keys, n);
        assert_eq!(chosen.len(), (n as usize).min(6));
        chosen.sort();
        chosen.dedup();
        assert_eq!(chosen.len(), (n as usize).min(6));
        let worst = chosen.iter().map(|c| keys[*c as usize]).max().unwrap();
        for c in 0..6u16 {
            if !chosen.contains(&c) {
                assert!(keys[c as usize] >= worst);
            }
        }
    }
    let mut two = choose_clusters(&keys, 2);
    two.sort();
    assert_eq!(two, vec![1, 3]);
}

#[test]
fn the_nearest_five_vote() {
    let i = load(&file());
    let chosen: Vec<u16> = vec![1, 0];
    let keys: Vec<u32> = vec![100, 2, 90, 80, 3, 70, 1, 60, 55, 50, 4];
    assert_eq!(i.fraud_count(&chosen, &keys), 4);
    assert_eq!(i.fraud_count(&Vec::new(), &Vec::new()), 0);
}

#[test]
fn a_list_in_no_order() {
    let mut t = Top::new();
    for (k, l) in [(9u32, 1u8), (8, 1), (7, 0), (6, 1), (5, 1)] {
        t.offer(k, l);
    }
    assert_eq!(t.keys, [9, 8, 7, 6, 5]);
    t.offer(9, 0);
    assert_eq!(t.keys, [9, 8, 7, 6, 5]);
    t.offer(1, 0);
    assert_eq!(t.keys, [1, 8, 7, 6, 5]);
    assert_eq!(t.frauds(), 3);
    t.offer(0x7f80_0000, 1);
    assert_eq!(t.keys, [1, 8, 7, 6, 5]);
}
