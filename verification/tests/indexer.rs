use infinity_sampler::InfinitySamplerIndexer;
use infinity_sampler::SamplingReservoir;

#[test]
fn closed_form_matches_stepping_n_8() {
    let mut it = InfinitySamplerIndexer::<8>::new();
    for m in 0..1024 {
        assert_eq!(it.next(), Some(InfinitySamplerIndexer::<8>::nth_slot(m)));
    }
    assert_eq!(it.position(), 1024);
}

#[test]
fn closed_form_matches_stepping_n_16() {
    let mut it = InfinitySamplerIndexer::<16>::new();
    for m in 0..1024 {
        assert_eq!(it.next(), Some(InfinitySamplerIndexer::<16>::nth_slot(m)));
    }
    assert_eq!(it.position(), 1024);
}

#[test]
fn index_pattern_n_16() {
    let mut it = InfinitySamplerIndexer::<16>::new();
    let mut produced = Vec::new();
    for _ in 0..48 {
        produced.push(it.next().unwrap());
    }
    assert_eq!(
        &produced[..],
        &[
            0, 1, 2, 3, 4, 5, 6, 7, 8, 9, 10, 11, 12, 13, 14, 15, 1, 3, 5, 7, 9, 11, 13, 15, 2, 6,
            10, 14, 3, 7, 11, 15, 4, 12, 5, 13, 6, 14, 7, 15, 8, 9, 10, 11, 12, 13, 14, 15
        ]
    );
}

#[test]
fn reverse_replays_forward_sequence() {
    let mut it = InfinitySamplerIndexer::<16>::new();
    let mut produced = Vec::new();
    for _ in 0..100 {
        produced.push(it.next().unwrap());
    }
    let mut rev = it.reverse();
    assert_eq!(rev.position(), 100);
    for k in (0..100).rev() {
        assert_eq!(rev.next(), Some(produced[k]));
    }
    assert_eq!(rev.position(), 0);
    assert_eq!(rev.next(), None);
    assert_eq!(rev.next(), None);
}

#[test]
fn reverse_twice_resumes_forward() {
    let mut it = InfinitySamplerIndexer::<8>::new();
    for _ in 0..37 {
        it.next();
    }
    let mut rev = it.reverse();
    for _ in 0..5 {
        rev.next();
    }
    assert_eq!(rev.position(), 32);
    let mut fwd = rev.reverse();
    for m in 32..64 {
        assert_eq!(fwd.next(), Some(InfinitySamplerIndexer::<8>::nth_slot(m)));
    }
}

#[test]
fn indexer_agrees_with_outer_index_form() {
    let mut it = InfinitySamplerIndexer::<8>::new();
    for outer in 0..256 {
        if SamplingReservoir::<u32, 8>::should_sample(outer) {
            assert_eq!(
                it.next(),
                Some(SamplingReservoir::<u32, 8>::storage_index_for_outer_index(
                    outer
                ))
            );
        }
    }
}

#[test]
fn default_indexer_starts_at_zero() {
    let mut it = InfinitySamplerIndexer::<8>::default();
    assert_eq!(it.position(), 0);
    assert_eq!(it.next(), Some(0));
}

#[test]
fn indexer_starts_with_fill() {
    let mut it = InfinitySamplerIndexer::<4>::new();
    assert_eq!(it.position(), 0);
    assert_eq!(it.next(), Some(0));
    assert_eq!(it.next(), Some(1));
    assert_eq!(it.next(), Some(2));
    assert_eq!(it.next(), Some(3));
    // two patterns of two steps each, then the cycle repeats
    assert_eq!(it.next(), Some(1));
    assert_eq!(it.next(), Some(3));
    assert_eq!(it.next(), Some(2));
    assert_eq!(it.next(), Some(3));
    assert_eq!(it.next(), Some(1));
    assert_eq!(it.position(), 9);
}
