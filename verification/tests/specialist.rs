use rinha2026::references::{build_file, reference_row};
use rinha2026::specialist::best::{insert_best_i64, is_unanimous, sum_labels};
use rinha2026::specialist::builder::{bucket_rows, build_index};
use rinha2026::specialist::decode::{read_header, read_parts};
use rinha2026::specialist::geometry::{add_square, lower_bound_box, tier1_classify, to_lane};
use rinha2026::specialist::limits::Limits;
use rinha2026::specialist::rows::{compute_bbox, pack_leaf, widest_axis, RefRow};
use rinha2026::specialist::warmup::{make_query, next_state, WARMUP_SEED};
use rinha2026::specialist::{
    compute_partition_key, pad_query, LoadErr, SpecialistIndex, DIM, MAGIC,
};

const EXACT: Limits = Limits {
    strong_decision: false,
    early_distance_limit: -1,
    early_candidates_limit: u32::MAX,
};

struct Random(u64);

impl Random {
    fn below(&mut self, n: u64) -> u64 {
        self.0 = next_state(self.0);
        (self.0 >> 20) % n
    }
}

fn random_vector(r: &mut Random) -> [i16; DIM] {
    let mut v = [0i16; DIM];
    for d in 0..DIM {
        v[d] = r.below(10001) as i16;
    }
    for d in [9, 10, 11] {
        v[d] = if r.below(2) == 0 { 0 } else { 10000 };
    }
    if r.below(3) == 0 {
        v[5] = -10000;
        v[6] = -10000;
    }
    v
}

fn random_rows(n: usize, seed: u64) -> Vec<RefRow> {
    let mut r = Random(seed);
    let mut rows = Vec::new();
    for _ in 0..n {
        let v = random_vector(&mut r);
        rows.push(RefRow { vec: pad_query(&v), label: r.below(2) as u8 });
    }
    rows
}

fn square(a: &[i16; 16], b: &[i16; 16]) -> i64 {
    (0..DIM).map(|d| (a[d] as i64 - b[d] as i64).pow(2)).sum()
}

fn load(bytes: &[u8], limits: Limits) -> SpecialistIndex {
    match SpecialistIndex::load(bytes, limits) {
        Ok(i) => i,
        Err(e) => panic!("{:?}", e),
    }
}

fn load_err(bytes: &[u8]) -> LoadErr {
    match SpecialistIndex::load(bytes, EXACT) {
        Ok(_) => panic!("loaded"),
        Err(e) => e,
    }
}

#[test]
fn searches_are_exact() {
    for (n, seed) in [(0usize, 1u64), (1, 2), (4, 3), (7, 4), (130, 5), (3000, 6)] {
        let rows = random_rows(n, seed);
        let file = build_file(&rows);
        let index = load(&file, EXACT);
        assert!(index.is_searchable());
        assert_eq!(index.total_vectors as usize, n);
        assert_eq!(index.total_vectors() as usize, n);
        assert_eq!(index.scale, 10000);
        assert_eq!(index.scale(), 10000);
        let mut r = Random(seed + 100);
        let mut compared = 0;
        for _ in 0..200 {
            let q = random_vector(&mut r);
            let count = index.fraud_count(&q);
            if let Some(c) = tier1_classify(&q) {
                assert_eq!(count, c);
                continue;
            }
            let p = pad_query(&q);
            let mut all: Vec<(i64, u8)> = rows.iter().map(|x| (square(&x.vec, &p), x.label)).collect();
            all.sort();
            if all.len() > 5 && all[4].0 == all[5].0 {
                continue;
            }
            let expected: u8 = all.iter().take(5).map(|x| x.1).sum();
            assert_eq!(count, expected);
            compared += 1;
        }
        assert!(compared > 50);
    }
}

#[test]
fn searches_are_exact_with_wider_boxes() {
    let rows = random_rows(1200, 31);
    let tight = build_file(&rows);
    let parts = match read_parts(&tight) {
        Ok(p) => p,
        Err(e) => panic!("{:?}", e),
    };
    let mut wide = tight.clone();
    let mut corners: Vec<usize> = Vec::new();
    for p in 0..parts.partitions.len() {
        corners.push(32 + 80 * p + 16);
    }
    for n in 0..parts.nodes.len() {
        corners.push(32 + 80 * parts.partitions.len() + 88 * n + 24);
    }
    for at in corners {
        for d in 0..DIM {
            let lo = i16::from_le_bytes([wide[at + 2 * d], wide[at + 2 * d + 1]]);
            let hi = i16::from_le_bytes([wide[at + 32 + 2 * d], wide[at + 33 + 2 * d]]);
            let slack = 137 * d as i16;
            wide[at + 2 * d..at + 2 * d + 2].copy_from_slice(&(lo - slack).to_le_bytes());
            wide[at + 32 + 2 * d..at + 34 + 2 * d].copy_from_slice(&(hi + slack).to_le_bytes());
        }
    }
    assert!(wide != tight);
    let a = load(&tight, EXACT);
    let b = load(&wide, EXACT);
    assert!(b.is_searchable());
    let mut r = Random(32);
    for _ in 0..200 {
        let q = random_vector(&mut r);
        assert_eq!(a.fraud_count(&q), b.fraud_count(&q));
    }
}

#[test]
fn early_stops_look_at_less() {
    let rows = random_rows(2000, 9);
    let file = build_file(&rows);
    let eager = Limits { early_distance_limit: i64::MAX, ..EXACT };
    let index = load(&file, eager);
    let capped = load(&file, Limits { early_candidates_limit: 0, ..EXACT });
    let strong = load(&file, Limits { strong_decision: true, ..EXACT });
    let mut r = Random(10);
    for _ in 0..50 {
        let q = random_vector(&mut r);
        assert!(index.fraud_count(&q) <= 5);
        assert!(capped.fraud_count(&q) <= 5);
        assert!(strong.fraud_count(&q) <= 5);
    }
}

#[test]
fn an_index_is_read_back_as_it_was_built() {
    let rows = random_rows(1500, 20);
    let image = build_index(&rows);
    let file = build_file(&rows);
    let parts = match read_parts(&file) {
        Ok(p) => p,
        Err(e) => panic!("{:?}", e),
    };
    assert_eq!(parts.header.magic, MAGIC);
    assert_eq!(parts.header.version, 2);
    assert_eq!(parts.partitions.len(), image.partitions.len());
    assert_eq!(parts.nodes.len(), image.nodes.len());
    assert_eq!(parts.panels.len(), image.panels.len());
    assert_eq!(parts.labels.len(), rows.len());
    let mut next = 0;
    let mut last_key: i64 = -1;
    for p in &parts.partitions {
        assert_eq!(p.start_vec, next);
        next += p.vec_count;
        assert!(p.key as i64 > last_key);
        last_key = p.key as i64;
    }
    assert_eq!(next as usize, rows.len());
    let index = load(&file, EXACT);
    assert_eq!(index.n_partitions(), image.partitions.len());
    assert_eq!(index.n_nodes(), image.nodes.len());
}

#[test]
fn leaves_and_inner_nodes() {
    let rows: Vec<RefRow> = (0..129)
        .map(|i| {
            let mut v = [0i16; DIM];
            v[3] = i as i16;
            RefRow { vec: pad_query(&v), label: 0 }
        })
        .collect();
    let image = build_index(&rows[..128].to_vec());
    assert_eq!(image.nodes.len(), 1);
    assert!(image.nodes[0].left < 0);
    assert_eq!(image.nodes[0].vec_count, 128);
    let image = build_index(&rows);
    assert_eq!(image.nodes.len(), 3);
    assert_eq!((image.nodes[0].left, image.nodes[0].right), (1, 2));
    assert_eq!(image.nodes[1].vec_count, 64);
    assert_eq!(image.nodes[2].vec_count, 65);
    assert_eq!(image.nodes[1].max[3], 63);
    assert_eq!(image.nodes[2].min[3], 64);
    assert_eq!(image.nodes[2].start_vec, 64);
    assert_eq!(image.nodes[2].start_panel, 8);
    let mut shuffled = rows.clone();
    shuffled.reverse();
    shuffled.swap(3, 90);
    let image = build_index(&shuffled);
    assert_eq!((image.nodes[1].min[3], image.nodes[1].max[3]), (0, 63));
    assert_eq!((image.nodes[2].min[3], image.nodes[2].max[3]), (64, 128));
}

#[test]
fn no_row_is_nearer_than_its_box() {
    let rows = random_rows(40, 60);
    let (min, max) = compute_bbox(&rows);
    let mut r = Random(61);
    for _ in 0..100 {
        let q = pad_query(&random_vector(&mut r));
        let bound = lower_bound_box(&q, &min, &max);
        for row in &rows {
            assert!(bound <= square(&row.vec, &q));
            let mut total = 0;
            for d in 0..DIM {
                total = add_square(total, row.vec[d], q[d]);
            }
            assert_eq!(to_lane(total), square(&row.vec, &q));
        }
    }
}

#[test]
fn files_that_are_no_index() {
    let file = build_file(&random_rows(20, 30));
    assert_eq!(load_err(&file[..31]), LoadErr::Truncated);
    assert_eq!(load_err(&file[..file.len() - 1]), LoadErr::Truncated);
    assert_eq!(load_err(&[]), LoadErr::Truncated);
    let mut bad = file.clone();
    bad[7] = b'1';
    assert_eq!(load_err(&bad), LoadErr::BadMagic);
    let mut bad = file.clone();
    bad[8] = 3;
    assert_eq!(load_err(&bad), LoadErr::BadVersion);
    let mut longer = file.clone();
    longer.push(0);
    assert!(SpecialistIndex::load(&longer, EXACT).is_ok());
}

#[test]
fn a_broken_tree_is_not_searchable() {
    let mut file = build_file(&random_rows(5, 31));
    let h = read_header(&file);
    assert_eq!(h.total_vectors, 5);
    let first_node = 32 + 80 * h.partition_count as usize;
    file[first_node] = 0;
    file[first_node + 1] = 0;
    file[first_node + 2] = 0;
    file[first_node + 3] = 0;
    file[first_node + 4] = 0;
    file[first_node + 5] = 0;
    file[first_node + 6] = 0;
    file[first_node + 7] = 0;
    let index = load(&file, EXACT);
    assert!(!index.is_searchable());
}

#[test]
fn panels_interleave_pairs() {
    let rows: Vec<RefRow> = (0..9)
        .map(|i| {
            let mut v = [0i16; DIM];
            for d in 0..DIM {
                v[d] = (100 * i + d) as i16;
            }
            RefRow { vec: pad_query(&v), label: i as u8 }
        })
        .collect();
    let mut panels = Vec::new();
    let mut labels = Vec::new();
    pack_leaf(&rows, &mut panels, &mut labels);
    assert_eq!(panels.len(), 224);
    assert_eq!(labels, vec![0, 1, 2, 3, 4, 5, 6, 7, 8]);
    assert_eq!(&panels[..6], &[0, 1, 100, 101, 200, 201]);
    assert_eq!(&panels[16..20], &[2, 3, 102, 103]);
    assert_eq!(&panels[96..98], &[12, 13]);
    assert_eq!(&panels[112..116], &[800, 801, 0, 0]);
}

#[test]
fn boxes_around_rows() {
    let rows = vec![reference_row(&[5; 14], 0), reference_row(&[-3; 14], 1)];
    let (min, max) = compute_bbox(&rows);
    assert_eq!(min[0], -3);
    assert_eq!(max[13], 5);
    assert_eq!((min[14], max[15]), (0, 0));
    let (min, max) = compute_bbox(&Vec::new());
    assert_eq!((min[0], max[0]), (i16::MAX, i16::MIN));
    assert_eq!((min[14], max[14]), (0, 0));
    let mut hi = [0i16; 16];
    hi[4] = 7;
    hi[9] = 7;
    assert_eq!(widest_axis(&[0; 16], &hi), 4);
}

#[test]
fn buckets_keep_their_order() {
    let rows = random_rows(300, 40);
    let buckets = bucket_rows(&rows);
    assert_eq!(buckets.len(), 256);
    for k in 0..256 {
        let expected: Vec<[i16; 16]> = rows
            .iter()
            .filter(|r| compute_partition_key(&r.vec) == k as u32)
            .map(|r| r.vec)
            .collect();
        let got: Vec<[i16; 16]> = buckets[k].iter().map(|r| r.vec).collect();
        assert_eq!(got, expected);
    }
}

#[test]
fn rows_are_clamped_and_padded() {
    let mut s = [0i32; 14];
    s[0] = 40000;
    s[1] = -40000;
    s[2] = 1234;
    let r = reference_row(&s, 1);
    assert_eq!(&r.vec[..4], &[32767, -32768, 1234, 0]);
    assert_eq!(&r.vec[14..], &[0, 0]);
    assert_eq!(r.label, 1);
}

#[test]
fn partition_keys() {
    let mut q = [0i16; 16];
    assert_eq!(compute_partition_key(&q), 1);
    q[5] = -1;
    assert_eq!(compute_partition_key(&q), 0);
    q[9] = 1;
    q[10] = 1;
    q[11] = 1;
    assert_eq!(compute_partition_key(&q), 14);
    q[12] = 2048;
    assert_eq!(compute_partition_key(&q), 14 + 16);
    q[12] = 4096;
    assert_eq!(compute_partition_key(&q), 14 + 32);
    q[12] = 6144;
    assert_eq!(compute_partition_key(&q), 14 + 48);
    q[2] = 4097;
    q[8] = 2049;
    assert_eq!(compute_partition_key(&q), 254);
}

#[test]
fn distances_in_lanes() {
    assert_eq!(add_square(10, 300, -100), 160010);
    assert_eq!(add_square(0, i16::MAX, i16::MIN), 1);
    assert_eq!(to_lane(2147483647), 2147483647);
    assert_eq!(to_lane(2147483648), -2147483648);
    let mut q = [0i16; 16];
    q[0] = 10;
    q[1] = -10;
    assert_eq!(lower_bound_box(&q, &[-3; 16], &[4; 16]), 36 + 49);
    assert_eq!(lower_bound_box(&q, &[-10; 16], &[10; 16]), 0);
}

#[test]
fn lists_of_neighbours() {
    let mut d = [i64::MAX; 5];
    let mut l = [0u8; 5];
    for (dist, label) in [(50, 1), (10, 0), (30, 1), (10, 1), (70, 0), (20, 1), (90, 1)] {
        insert_best_i64(dist, label, &mut d, &mut l);
    }
    assert_eq!(d, [10, 10, 20, 30, 50]);
    assert_eq!(l, [0, 1, 1, 1, 1]);
    assert_eq!(sum_labels(&l), 4);
    assert!(!is_unanimous(&l));
    insert_best_i64(5, 1, &mut d, &mut l);
    assert_eq!(l, [1, 0, 1, 1, 1]);
    assert!(is_unanimous(&[1; 5]));
    assert!(is_unanimous(&[0; 5]));
}

#[test]
fn one_neighbour_does_not_flip_unanimity() {
    for label in 0..2u8 {
        let mut d = [10, 20, 30, 40, 50];
        let mut l = [label; 5];
        insert_best_i64(25, 1 - label, &mut d, &mut l);
        assert_eq!(sum_labels(&l) >= 3, label == 1);
        assert_eq!(sum_labels(&l), if label == 1 { 4 } else { 1 });
    }
}

#[test]
fn obvious_transactions() {
    let mut legit = [0i16; 14];
    legit[12] = 1500;
    assert_eq!(tier1_classify(&legit), Some(0));
    legit[12] = 4500;
    assert_eq!(tier1_classify(&legit), None);
    let mut fraud = [0i16; 14];
    fraud[11] = 10000;
    fraud[0] = 5000;
    fraud[1] = 4167;
    fraud[8] = 3000;
    fraud[7] = 1500;
    assert_eq!(tier1_classify(&fraud), Some(5));
    fraud[7] = 1499;
    assert_eq!(tier1_classify(&fraud), None);
}

#[test]
fn made_up_queries() {
    let s = next_state(WARMUP_SEED);
    let mut x: u64 = 0xDEAD_BEEF_CAFE_BABE;
    x ^= x << 13;
    x ^= x >> 7;
    x ^= x << 17;
    assert_eq!(s, x);
    let q = make_query(s, 0);
    assert_eq!((q[5], q[6]), (-10000, -10000));
    for d in 0..14 {
        if d != 5 && d != 6 {
            let r = x.rotate_left((d as u32 * 7) % 64);
            assert_eq!(q[d], ((r as u32) % 10001) as i16);
        }
    }
    let rows = random_rows(400, 50);
    let index = load(&build_file(&rows), EXACT);
    let total = index.warmup_queries(100);
    assert!(total <= 500);
    assert_eq!(index.warmup_queries(0), 0);
}
