use vite::bytes::{get_u32, get_u64, put_u64};
use vite::distance::{distance_key, measure, SIGN_BIT};
use vite::heap::{enqueue, NodeHeapItem};

#[test]
fn keys_order_distances_as_reals() {
    let reals = [
        f64::NEG_INFINITY,
        -3.5,
        -1.0,
        -1e-300,
        0.0,
        1e-300,
        2.220446049250313e-16,
        0.5,
        1.0,
        2.0,
        f64::INFINITY,
    ];
    for w in reals.windows(2) {
        assert!(distance_key(w[0].to_bits()) < distance_key(w[1].to_bits()));
    }
    for a in reals {
        for b in reals {
            assert_eq!(a < b, distance_key(a.to_bits()) < distance_key(b.to_bits()));
        }
    }
}

#[test]
fn key_of_a_pattern_is_exact() {
    assert_eq!(SIGN_BIT, 0x8000_0000_0000_0000);
    assert_eq!(distance_key(0), 0x8000_0000_0000_0000);
    assert_eq!(distance_key(1.0f64.to_bits()), 0xbff0_0000_0000_0000);
    assert_eq!(distance_key((-1.0f64).to_bits()), 0x400f_ffff_ffff_ffff);
    assert_eq!(distance_key(0x8000_0000_0000_0000), 0x7fff_ffff_ffff_ffff);
    assert_eq!(distance_key(u64::MAX), 0);
}

#[test]
fn measure_calls_the_distance_function() {
    let d = |a: &[u64], b: &[u64]| -> u64 { a[0] * 10 + b[0] };
    assert_eq!(measure(&d, &[3], &[4]), 34);
    assert_eq!(measure(&d, &[4], &[3]), 43);
}

#[test]
fn queue_keeps_items_in_order_of_distance_then_index() {
    let mut q: Vec<NodeHeapItem> = Vec::new();
    let item = |d: f64, node: usize| NodeHeapItem { distance: d.to_bits(), node };
    enqueue(&mut q, item(0.5, 3));
    enqueue(&mut q, item(0.25, 9));
    enqueue(&mut q, item(0.75, 1));
    enqueue(&mut q, item(0.5, 2));
    enqueue(&mut q, item(-0.125, 7));
    enqueue(&mut q, item(0.5, 5));
    assert_eq!(
        q,
        vec![item(-0.125, 7), item(0.25, 9), item(0.5, 2), item(0.5, 3), item(0.5, 5), item(0.75, 1)]
    );
    assert!(item(0.5, 2).comes_before(&item(0.5, 3)));
    assert!(!item(0.5, 3).comes_before(&item(0.5, 3)));
    assert!(item(0.25, 9).comes_before(&item(0.5, 2)));
    assert!(!item(0.5, 2).comes_before(&item(0.25, 9)));
}

#[test]
fn numbers_are_stored_big_endian() {
    let mut out = vec![9u8];
    put_u64(&mut out, 0x0102_0304_0506_0708);
    assert_eq!(out, vec![9, 1, 2, 3, 4, 5, 6, 7, 8]);
    assert_eq!(get_u64(&out, 1), 0x0102_0304_0506_0708);
    assert_eq!(get_u64(&out, 0), 0x0901_0203_0405_0607);
    assert_eq!(get_u32(&out, 5), 0x0506_0708);
    let mut out = Vec::new();
    put_u64(&mut out, u64::MAX - 1);
    assert_eq!(out, vec![255, 255, 255, 255, 255, 255, 255, 254]);
    assert_eq!(get_u64(&out, 0), u64::MAX - 1);
}
