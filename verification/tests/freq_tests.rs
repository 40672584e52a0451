use cryptopals::freq::{byte_histogram, bytes_by_frequency, make_mapping, shortest_vec, transpose};

#[test]
fn histogram_counts_each_value() {
    let h = byte_histogram(&[0, 0, 3, 255, 3, 3]);
    assert_eq!(h.len(), 256);
    assert_eq!(h[0], 2);
    assert_eq!(h[3], 3);
    assert_eq!(h[255], 1);
    assert_eq!(h[7], 0);
}

#[test]
fn transpose_collects_columns() {
    let t = transpose(&[1, 2, 3, 4, 5, 6, 7], 3);
    assert_eq!(t.len(), 3);
    assert_eq!(t[0], vec![1, 4, 7]);
    assert_eq!(t[1], vec![2, 5]);
    assert_eq!(t[2], vec![3, 6]);
}

#[test]
fn shortest_vec_finds_the_first_minimum() {
    let vecs = vec![vec![1, 2, 3], vec![1], vec![9, 9], vec![5]];
    assert_eq!(shortest_vec(&vecs), 1);
    assert_eq!(shortest_vec(&vec![vec![7]]), 0);
}

#[test]
fn mapping_pairs_bytes_with_letters() {
    let m = make_mapping(&[9, 4, 200]);
    assert_eq!(m, vec![(9, 'e'), (4, 't'), (200, 'a')]);
    let long: Vec<u8> = (0..40).collect();
    assert_eq!(make_mapping(&long).len(), 26);
}

#[test]
fn bytes_by_frequency_orders_by_count() {
    let h = byte_histogram(&[7, 7, 7, 2, 2, 9, 11, 11]);
    let by_freq = bytes_by_frequency(&h);
    assert_eq!(by_freq, vec![7, 11, 2, 9]);
    // equal counts come larger byte first
    let h2 = byte_histogram(&[1, 3, 2]);
    assert_eq!(bytes_by_frequency(&h2), vec![3, 2, 1]);
    let empty = byte_histogram(&[]);
    assert_eq!(bytes_by_frequency(&empty), Vec::<u8>::new());
}
