use spm::cache::{Cache, CacheError, RotaryRange, MAX_SEQ_LEN};

#[test]
fn first_merge_keeps_input() {
    let mut c: Cache<u32> = Cache::new(true, 2, 4);
    let (k, v) = c.process_kv(0, vec![1, 2, 3], vec![10, 20, 30]).unwrap();
    assert_eq!(k, vec![1, 2, 3]);
    assert_eq!(v, vec![10, 20, 30]);
}

#[test]
fn merges_slide_within_window() {
    let mut c: Cache<u32> = Cache::new(true, 2, 4);
    c.process_kv(1, vec![1, 2, 3], vec![10, 20, 30]).unwrap();
    let (k, v) = c.process_kv(1, vec![4, 5], vec![40, 50]).unwrap();
    assert_eq!(k, vec![2, 3, 4, 5]);
    assert_eq!(v, vec![20, 30, 40, 50]);
    let (k, v) = c.process_kv(1, vec![6, 7, 8, 9, 10], vec![60, 70, 80, 90, 100]).unwrap();
    assert_eq!(k, vec![7, 8, 9, 10]);
    assert_eq!(v, vec![70, 80, 90, 100]);
    // the other layer is untouched
    let (k, _) = c.process_kv(0, vec![1], vec![1]).unwrap();
    assert_eq!(k, vec![1]);
}

#[test]
fn window_bound_over_many_merges() {
    let mut c: Cache<u32> = Cache::new(true, 1, 8);
    for step in 0..50u32 {
        let (k, v) = c.process_kv(0, vec![step; (step % 3 + 1) as usize], vec![step]).unwrap();
        assert!(k.len() <= 8);
        assert!(v.len() <= 8);
    }
}

#[test]
fn kv_disabled_passes_through() {
    let mut c: Cache<u32> = Cache::new(false, 1, 4);
    assert!(!c.with_kv_cache());
    c.process_kv(0, vec![1, 2], vec![3]).unwrap();
    let (k, v) = c.process_kv(0, vec![5], vec![6]).unwrap();
    assert_eq!(k, vec![5]);
    assert_eq!(v, vec![6]);
    // nothing is indexed when caching is off
    assert!(c.process_kv(9, vec![1], vec![1]).is_ok());
}

#[test]
fn unknown_layer_is_an_error() {
    let mut c: Cache<u32> = Cache::new(true, 2, 4);
    assert_eq!(c.process_kv(2, vec![1], vec![1]).unwrap_err(), CacheError::LayerOutOfRange);
}

#[test]
fn reset_twice_equals_reset_once() {
    let mut c: Cache<u32> = Cache::new(true, 2, 4);
    c.process_kv(0, vec![1, 2], vec![1, 2]).unwrap();
    c.mask(3);
    c.clear();
    c.clear();
    let (k, v) = c.process_kv(0, vec![9], vec![8]).unwrap();
    assert_eq!(k, vec![9]);
    assert_eq!(v, vec![8]);
    let fresh = c.as_new();
    let mut fresh = fresh;
    let (k, _) = fresh.process_kv(0, vec![7], vec![7]).unwrap();
    assert_eq!(k, vec![7]);
}

#[test]
fn causal_mask_three() {
    let mut c: Cache<u32> = Cache::new(true, 1, MAX_SEQ_LEN);
    let m = c.mask(3);
    assert_eq!(
        m,
        vec![vec![false, true, true], vec![false, false, true], vec![false, false, false]]
    );
    let again = c.mask(3);
    assert_eq!(m, again);
    assert_eq!(c.mask(1), vec![vec![false]]);
    assert!(c.mask(0).is_empty());
}

#[test]
fn rotary_range_checks() {
    let c: Cache<u32> = Cache::new(true, 1, 16);
    assert_eq!(c.rotary(4, 12), Ok(RotaryRange { start: 4, len: 12 }));
    assert_eq!(c.cosine(0, 16), Ok(RotaryRange { start: 0, len: 16 }));
    assert_eq!(c.sine(5, 12), Err(CacheError::RotaryOutOfRange));
    assert_eq!(c.rotary(17, 0), Err(CacheError::RotaryOutOfRange));
}
