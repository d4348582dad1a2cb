use rustlight::sampler::{IndependentSampler, ReplaySampler, UNIT};

#[test]
fn independent_sampler_is_deterministic() {
    let mut a = IndependentSampler::new(42);
    let mut b = IndependentSampler::new(42);
    for _ in 0..100 {
        let x = a.next();
        assert!(x < UNIT);
        assert_eq!(x, b.next());
    }
}

#[test]
fn independent_sampler_first_draw() {
    // state 0 steps to the increment; its top 24 bits are the draw
    let mut s = IndependentSampler::new(0);
    let v = s.next();
    assert_eq!(s.state, 1442695040888963407);
    assert_eq!(v, (1442695040888963407u64 >> 40) as u32);
}

#[test]
fn pixel_seed_depends_on_pixel_only() {
    assert_eq!(IndependentSampler::for_pixel(3, 5).state, (5u64 << 32) | 3);
    assert_eq!(IndependentSampler::for_pixel(3, 5), IndependentSampler::for_pixel(3, 5));
    assert_ne!(IndependentSampler::for_pixel(3, 5), IndependentSampler::for_pixel(5, 3));
}

#[test]
fn replay_records_then_replays() {
    let mut r = ReplaySampler::new(IndependentSampler::new(7));
    let first: Vec<u32> = (0..10).map(|_| r.next()).collect();
    assert_eq!(r.tape_len(), 10);
    assert_eq!(r.cursor(), 10);
    r.rewind();
    assert_eq!(r.cursor(), 0);
    assert_eq!(r.tape_len(), 10);
    let second: Vec<u32> = (0..10).map(|_| r.next()).collect();
    assert_eq!(first, second);
}

#[test]
fn replay_shorter_run_sees_prefix() {
    let mut r = ReplaySampler::new(IndependentSampler::new(11));
    let first: Vec<u32> = (0..8).map(|_| r.next()).collect();
    r.rewind();
    let (a, b) = r.next2d();
    let c = r.next();
    assert_eq!(vec![a, b, c], first[..3].to_vec());
    assert_eq!(r.tape_len(), 8);
}

#[test]
fn replay_longer_run_extends_tape_with_fresh_values() {
    let mut plain = IndependentSampler::new(13);
    let expected: Vec<u32> = (0..6).map(|_| plain.next()).collect();
    let mut r = ReplaySampler::new(IndependentSampler::new(13));
    let _ = (0..4).map(|_| r.next()).count();
    r.rewind();
    let got: Vec<u32> = (0..6).map(|_| r.next()).collect();
    assert_eq!(got, expected);
    assert_eq!(r.tape_len(), 6);
}

#[test]
fn unregistered_draw_leaves_tape_alone() {
    let mut r = ReplaySampler::new(IndependentSampler::new(3));
    let a = r.next();
    let u = r.unregistered();
    assert!(u < UNIT);
    assert_eq!(r.tape_len(), 1);
    assert_eq!(r.cursor(), 1);
    r.rewind();
    assert_eq!(r.next(), a);
    // the inner sampler moved on: the next fresh value is its third draw
    let mut plain = IndependentSampler::new(3);
    plain.next();
    plain.next();
    let third = plain.next();
    assert_eq!(r.next(), third);
    assert_eq!(r.into_inner().state, plain.state);
}

#[test]
fn identical_seeds_give_identical_base_sequences() {
    let mut a = ReplaySampler::new(IndependentSampler::for_pixel(17, 4));
    let mut b = ReplaySampler::new(IndependentSampler::for_pixel(17, 4));
    for _ in 0..64 {
        assert_eq!(a.next(), b.next());
    }
}

#[test]
fn independent_next2d_is_two_draws() {
    let mut a = IndependentSampler::new(99);
    let mut b = IndependentSampler::new(99);
    let (x, y) = a.next2d();
    assert_eq!(x, b.next());
    assert_eq!(y, b.next());
    assert_eq!(a, b);
}

#[test]
fn replay_survives_unregistered_draws_between_runs() {
    let mut r = ReplaySampler::new(IndependentSampler::new(21));
    let first: Vec<u32> = (0..5).map(|_| r.next()).collect();
    for _ in 0..3 {
        r.unregistered();
    }
    r.rewind();
    let again: Vec<u32> = (0..5).map(|_| r.next()).collect();
    assert_eq!(first, again);
}
