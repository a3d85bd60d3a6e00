use private_scoring::bytes::{
    copy, get_seed, get_u32, get_u32s, get_u64, get_u64s, number, put_u32, put_u32s, put_u64,
    put_u64s, text,
};
use private_scoring::cache::{same_bytes, KeyedCache};
use private_scoring::float_bits::{
    bits_of_total_order_32, bits_of_total_order_64, is_below_zero_64, less_than, negate_32,
    total_order_key_32, total_order_key_64,
};
use private_scoring::hits::{rank, Hit};
use private_scoring::ivf::{
    ivf_payload_size, probe_route, read_index, write_index, IvfIndex, Member,
};

fn bits(distances: &[f32]) -> Vec<u32> {
    distances.iter().map(|d| d.to_bits()).collect()
}

#[test]
fn indexes_are_read_back() {
    let member = |id: u32| Member { id, components: vec![id * 10, id * 10 + 1] };
    let index = IvfIndex {
        centroids: vec![vec![1, 2], vec![3, 4], vec![5, 6]],
        clusters: vec![vec![member(4), member(9)], vec![], vec![member(1)]],
    };
    let mut out = vec![0xAAu8; 5];
    write_index(&index, 2, &mut out);
    assert_eq!(out.len() - 5, ivf_payload_size(&index, 2) as usize);
    assert_eq!(ivf_payload_size(&index, 2), 24 + 3 * 8 + 3 * 8 + 3 * 12);
    out.extend_from_slice(b"tail");
    let (read, dim, end) = read_index(&out, 5).expect("read");
    assert_eq!(dim, 2);
    assert_eq!(end, out.len() - 4);
    assert_eq!(read.centroids, index.centroids);
    for (a, b) in read.clusters.iter().zip(&index.clusters) {
        assert_eq!(a.len(), b.len());
        for (x, y) in a.iter().zip(b) {
            assert_eq!((x.id, &x.components), (y.id, &y.components));
        }
    }
    assert!(read_index(&out[..end - 1], 5).is_none());
    assert!(read_index(&[0xFF; 64], 0).is_none());
}

#[test]
fn routes_take_the_nearest_centroids() {
    let distances = bits(&[5.0, 1.0, 4.0, 1.0]);
    assert_eq!(probe_route(&distances, 0), Vec::<usize>::new());
    assert_eq!(probe_route(&distances, 1), vec![1]);
    assert_eq!(probe_route(&distances, 3), vec![1, 3, 2]);
    assert_eq!(probe_route(&distances, 9), vec![1, 3, 2, 0]);
}

#[test]
fn the_total_order_is_that_of_the_numbers() {
    let numbers = [f32::NEG_INFINITY, -2.0, -0.0, 0.0, 1.5, f32::INFINITY, f32::NAN];
    for (i, a) in numbers.iter().enumerate() {
        let key = total_order_key_32(a.to_bits());
        assert_eq!(bits_of_total_order_32(key), a.to_bits());
        for b in &numbers[i + 1..] {
            assert!(key < total_order_key_32(b.to_bits()));
        }
        assert_eq!(negate_32(a.to_bits()), (-a).to_bits());
        for b in &numbers {
            assert_eq!(less_than(a.to_bits(), b.to_bits()), a < b);
        }
    }
    let wide = [f64::NEG_INFINITY, -2.0, -0.0, 0.0, 1.5, f64::INFINITY, f64::NAN];
    for (i, a) in wide.iter().enumerate() {
        let key = total_order_key_64(a.to_bits());
        assert_eq!(bits_of_total_order_64(key), a.to_bits());
        for b in &wide[i + 1..] {
            assert!(key < total_order_key_64(b.to_bits()));
        }
        assert_eq!(is_below_zero_64(a.to_bits()), *a < 0.0);
    }
    assert!(!is_below_zero_64((-f64::NAN).to_bits()));
}

#[test]
fn hits_are_ranked_by_score_and_then_by_number() {
    let hits = [
        Hit { id: 3, score: 1 },
        Hit { id: 2, score: 7 },
        Hit { id: 1, score: 1 },
    ];
    assert_eq!(
        rank(&hits, 2),
        vec![Hit { id: 2, score: 7 }, Hit { id: 1, score: 1 }]
    );
    let mut turned = hits;
    turned.reverse();
    assert_eq!(rank(&turned, 9), rank(&hits, 9));
}

#[test]
fn numbers_are_little_endian() {
    assert_eq!(number(0x0102), vec![2, 1, 0, 0, 0, 0, 0, 0]);
    assert_eq!(text("ab"), b"ab");
    assert_eq!(copy(&[1, 2]), vec![1, 2]);
    let mut out = Vec::new();
    put_u32(&mut out, 0x0403_0201);
    put_u64(&mut out, u64::MAX - 1);
    put_u32s(&mut out, &[7, 8]);
    put_u64s(&mut out, &[9]);
    out.extend_from_slice(&[5u8; 32]);
    assert_eq!(out[..4], [1, 2, 3, 4]);
    assert_eq!(get_u32(&out, 0), Some(0x0403_0201));
    assert_eq!(get_u64(&out, 4), Some(u64::MAX - 1));
    assert_eq!(get_u32s(&out, 12, 2), Some(vec![7, 8]));
    assert_eq!(get_u64s(&out, 20, 1), Some(vec![9]));
    assert_eq!(get_seed(&out, 28), Some([5u8; 32]));
    assert_eq!(get_seed(&out, 29), None);
    assert_eq!(get_u64(&out, out.len() - 7), None);
    assert_eq!(get_u32(&out, out.len() - 3), None);
    assert_eq!(get_u32s(&out, 0, usize::MAX), None);
    assert_eq!(get_u64s(&out, 0, usize::MAX), None);
}

#[test]
fn caches_find_what_was_put_last() {
    let mut cache = KeyedCache::new();
    cache.insert(b"a".to_vec(), 1);
    cache.insert(b"b".to_vec(), 2);
    cache.insert(b"a".to_vec(), 3);
    assert_eq!(cache.get(b"a"), Some(&3));
    assert_eq!(cache.get(b"b"), Some(&2));
    assert_eq!(cache.get(b"c"), None);
    assert!(same_bytes(b"ab", b"ab"));
    assert!(!same_bytes(b"ab", b"abc"));
}
