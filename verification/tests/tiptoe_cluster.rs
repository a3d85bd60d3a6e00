use private_scoring::tiptoe::cluster::{encode_ivf, EncodedClusters, ScaledVector};
use private_scoring::tiptoe::encoding::{dequantise_component, max_magnitude, EncodingError};
use private_scoring::tiptoe::lwe::Params;
use private_scoring::tiptoe::routing::{build_augmented_query, route};

fn scaled(v: &[f32], quantisation_bits: u8) -> Vec<Option<i64>> {
    let mag = max_magnitude(quantisation_bits) as f32;
    v.iter()
        .map(|&x| if x.is_finite() { Some((x * mag).round() as i64) } else { None })
        .collect()
}

fn encode(
    clusters: &[Vec<(u32, Vec<f32>)>],
    d: usize,
    q: u8,
    p: u64,
) -> Result<EncodedClusters, EncodingError> {
    let clusters: Vec<Vec<ScaledVector>> = clusters
        .iter()
        .map(|cluster| {
            cluster
                .iter()
                .map(|(id, v)| ScaledVector { id: *id, components: scaled(v, q) })
                .collect()
        })
        .collect();
    encode_ivf(&clusters, d, q, p)
}

/// Squared distances of a query from centroids, as bits.
fn distances(query: &[f32], centroids: &[Vec<f32>]) -> Vec<u32> {
    centroids
        .iter()
        .map(|c| {
            let d: f32 = c.iter().zip(query).map(|(a, b)| (a - b) * (a - b)).sum();
            d.to_bits()
        })
        .collect()
}

#[test]
fn shape_matches_layout() {
    let d = 4;
    let clusters = vec![
        vec![(0u32, vec![0.1; d]), (1, vec![0.2; d])],
        vec![(2, vec![-0.3; d])],
        vec![(3, vec![0.4; d]), (4, vec![-0.5; d]), (5, vec![0.6; d])],
    ];
    let p = Params::tiptoe_text().p();
    let enc = encode(&clusters, d, 4, p).unwrap();

    assert_eq!(enc.m_max(), 3);
    assert_eq!(enc.d(), d);
    assert_eq!(enc.n_centroids(), 3);
    assert_eq!(enc.width(), 12);
    assert_eq!(enc.matrix().len(), 3 * 12);
    assert_eq!(enc.cluster_col_start(0), 0);
    assert_eq!(enc.cluster_col_start(1), 4);
    assert_eq!(enc.cluster_col_start(2), 8);
}

#[test]
fn vector_lands_in_its_cluster_block() {
    let d = 2;
    let clusters = vec![vec![(7u32, vec![1.0, 0.0])], vec![(13u32, vec![0.0, -1.0])]];
    let p = Params::tiptoe_text().p();
    let q = 4;
    let mag = max_magnitude(q) as u64;
    let enc = encode(&clusters, d, q, p).unwrap();

    let row0 = &enc.matrix()[0..enc.width()];
    assert_eq!(row0[0], mag);
    assert_eq!(row0[1], 0);
    assert_eq!(row0[2], 0);
    assert_eq!(row0[3], p - mag);
}

#[test]
fn padding_rows_are_zero() {
    let d = 3;
    let clusters = vec![
        vec![(0u32, vec![0.5, 0.5, 0.5]), (1u32, vec![-0.5, -0.5, -0.5])],
        vec![(2u32, vec![1.0, 1.0, 1.0])],
    ];
    let p = Params::tiptoe_text().p();
    let enc = encode(&clusters, d, 4, p).unwrap();

    let width = enc.width();
    let row1 = &enc.matrix()[width..2 * width];
    let cluster1_block = &row1[enc.cluster_col_start(1)..enc.cluster_col_start(1) + d];
    assert!(
        cluster1_block.iter().all(|&z| z == 0),
        "padding row must be zero, got {cluster1_block:?}"
    );
}

#[test]
fn cells_outside_a_clusters_block_are_zero() {
    let d = 2;
    let clusters = vec![vec![(0u32, vec![1.0, 1.0])], vec![]];
    let p = Params::tiptoe_text().p();
    let enc = encode(&clusters, d, 4, p).unwrap();

    let width = enc.width();
    let row0 = &enc.matrix()[0..width];
    let block_start = enc.cluster_col_start(1);
    for (offset, &z) in row0[block_start..block_start + d].iter().enumerate() {
        assert_eq!(z, 0, "col {}", block_start + offset);
    }
}

#[test]
fn cluster_membership_round_trips_local_to_global_ids() {
    let clusters = vec![
        vec![(42u32, vec![0.1]), (17u32, vec![0.2])],
        vec![(99u32, vec![0.3])],
    ];
    let p = Params::tiptoe_text().p();
    let enc = encode(&clusters, 1, 4, p).unwrap();
    assert_eq!(enc.cluster_membership(0), &[42, 17]);
    assert_eq!(enc.cluster_membership(1), &[99]);
}

#[test]
fn empty_cluster_reserves_block_with_no_rows() {
    let d = 2;
    let clusters = vec![vec![], vec![(0u32, vec![1.0, -1.0])]];
    let p = Params::tiptoe_text().p();
    let enc = encode(&clusters, d, 4, p).unwrap();
    assert_eq!(enc.m_max(), 1);
    assert_eq!(enc.width(), 4);
    let row0 = &enc.matrix()[0..enc.width()];
    assert_eq!(row0[0], 0);
    assert_eq!(row0[1], 0);
    let mag = max_magnitude(4) as u64;
    assert_eq!(row0[2], mag);
    assert_eq!(row0[3], p - mag);
    assert!(enc.cluster_membership(0).is_empty());
}

#[test]
fn encoded_block_dequantises_back_to_original() {
    let d = 4;
    let v = vec![0.2, -0.5, 0.7, -1.0];
    let clusters = vec![vec![(0u32, v.clone())]];
    let p = Params::tiptoe_text().p();
    let q = 4;
    let mag = max_magnitude(q) as f32;
    let enc = encode(&clusters, d, q, p).unwrap();
    let row0 = &enc.matrix()[0..enc.width()];
    let block = &row0[enc.cluster_col_start(0)..enc.cluster_col_start(0) + d];
    for (i, &z) in block.iter().enumerate() {
        let back = dequantise_component(z, p) as f32 / mag;
        assert!((back - v[i]).abs() < 1.0 / mag, "i={i}");
    }
}

#[test]
fn a_component_that_is_not_finite_is_reported() {
    let clusters = vec![vec![(0u32, vec![0.5, 0.5])], vec![(1u32, vec![0.5, f32::NAN])]];
    let p = Params::tiptoe_text().p();
    assert!(matches!(
        encode(&clusters, 2, 4, p),
        Err(EncodingError::NonFinite { index: 1 })
    ));
}

#[test]
fn route_picks_nearest_centroid() {
    let centroids: Vec<Vec<f32>> = vec![vec![-1.0], vec![0.0], vec![1.0]];
    assert_eq!(route(&distances(&[0.4], &centroids)), 1);
    assert_eq!(route(&distances(&[0.6], &centroids)), 2);
    assert_eq!(route(&distances(&[-0.9], &centroids)), 0);
}

#[test]
fn route_breaks_ties_to_lowest_index() {
    let centroids: Vec<Vec<f32>> = vec![vec![-1.0], vec![1.0]];
    assert_eq!(route(&distances(&[0.0], &centroids)), 0);
}

#[test]
fn distances_that_are_not_numbers_are_never_nearer() {
    let (two, four, nan) = (2.0f32.to_bits(), 4.0f32.to_bits(), f32::NAN.to_bits());
    assert_eq!(route(&[four, nan, two]), 2);
    assert_eq!(route(&[nan, four, two]), 0);
}

#[test]
fn build_augmented_query_is_zero_outside_chosen_block() {
    let d = 2;
    let clusters = vec![vec![(0u32, vec![0.0, 0.0])], vec![(1u32, vec![0.0, 0.0])]];
    let p = Params::tiptoe_text().p();
    let enc = encode(&clusters, d, 4, p).unwrap();

    let q = scaled(&[1.0, -1.0], 4);
    let q_tilde = build_augmented_query(&q, 1, &enc, 4, p).unwrap();
    assert_eq!(q_tilde.len(), 4);
    assert_eq!(q_tilde[0], 0);
    assert_eq!(q_tilde[1], 0);
    let mag = max_magnitude(4) as u64;
    assert_eq!(q_tilde[2], mag);
    assert_eq!(q_tilde[3], p - mag);
}

#[test]
fn build_augmented_query_for_each_cluster_only_changes_one_block() {
    let d = 3;
    let n = 4;
    let clusters = vec![vec![(0u32, vec![0.0; d])]; n];
    let p = Params::tiptoe_text().p();
    let enc = encode(&clusters, d, 4, p).unwrap();

    let q = scaled(&[0.5, -0.5, 0.25], 4);
    for chosen in 0..n {
        let q_tilde = build_augmented_query(&q, chosen, &enc, 4, p).unwrap();
        for c in 0..n {
            let block = &q_tilde[c * d..(c + 1) * d];
            if c == chosen {
                assert!(
                    block.iter().any(|&v| v != 0),
                    "chosen block must be populated"
                );
            } else {
                assert!(
                    block.iter().all(|&v| v == 0),
                    "non-chosen block must be zero"
                );
            }
        }
    }
}

#[test]
fn an_augmented_query_selects_the_scores_of_its_cluster() {
    let d = 2;
    let clusters = vec![
        vec![(0u32, vec![1.0, 0.0]), (1u32, vec![0.4, 0.6])],
        vec![(2u32, vec![0.0, -1.0])],
    ];
    let p = Params::tiptoe_text().p();
    let enc = encode(&clusters, d, 4, p).unwrap();
    let q_tilde = build_augmented_query(&scaled(&[0.2, 0.8], 4), 0, &enc, 4, p).unwrap();
    let width = enc.width();
    let row = |i: usize| -> u64 {
        let cells = &enc.matrix()[i * width..(i + 1) * width];
        cells.iter().zip(&q_tilde).fold(0u64, |acc, (&a, &b)| (acc + a * b) % p)
    };
    // slots: (15, 0) and (6, 9) against (3, 12)
    assert_eq!(row(0), 45);
    assert_eq!(row(1), 126);
}
