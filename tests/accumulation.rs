use rtracer::pcg::hash;
use rtracer::render::{pixel_coordinates, pixel_seed, worker_step, Render, WorkerAction, INITIAL_SEED};

#[test]
fn frames_accumulate_and_reset() {
    let mut r = Render::new();
    assert_eq!(r.get_accumulated_frames_count(), 0);
    let (s1, d1) = r.begin_frame();
    assert_eq!(s1, hash(INITIAL_SEED));
    assert_eq!(d1, 1);
    r.finish_frame();
    let (s2, d2) = r.begin_frame();
    assert_eq!(s2, hash(s1));
    assert_eq!(d2, 2);
    r.finish_frame();
    assert_eq!(r.get_accumulated_frames_count(), 2);
    r.reset_accumulated_frames();
    assert_eq!(r.get_accumulated_frames_count(), 0);
    let (s3, d3) = r.begin_frame();
    assert_eq!(s3, s1);
    assert_eq!(d3, 1);
}

#[test]
fn debug_flag_survives_reset() {
    let mut r = Render::new();
    assert!(!r.bvh_debug());
    r.set_bvh_debug(true);
    r.reset_accumulated_frames();
    assert!(r.bvh_debug());
}

#[test]
fn worker_decisions() {
    assert_eq!(worker_step(true, true, 0, 0), WorkerAction::Wait);
    assert_eq!(worker_step(false, true, 0, 0), WorkerAction::Stop);
    assert_eq!(worker_step(false, false, 1000, 0), WorkerAction::Draw);
    assert_eq!(worker_step(false, false, 15, 16), WorkerAction::Draw);
    assert_eq!(worker_step(false, false, 16, 16), WorkerAction::Idle);
}

#[test]
fn pixel_seeds_mix_coordinates() {
    assert_eq!(pixel_seed(10, 2, 3), hash(hash(10 ^ 2) ^ 3));
    assert_ne!(pixel_seed(7, 2, 3), pixel_seed(7, 3, 2));
    // The first column no longer collapses to one seed.
    assert_ne!(pixel_seed(1, 0, 5), pixel_seed(2, 0, 5));
    assert_ne!(pixel_seed(1, 0, 5), pixel_seed(1, 0, 6));
    assert_ne!(pixel_seed(hash(INITIAL_SEED), 0, 0), pixel_seed(hash(hash(INITIAL_SEED)), 0, 0));
}

#[test]
fn pixel_seed_changes_every_frame() {
    let mut r = Render::new();
    let mut seen = Vec::new();
    for _ in 0..50 {
        let (frame_seed, _) = r.begin_frame();
        r.finish_frame();
        let s = pixel_seed(frame_seed, 0, 7);
        assert!(!seen.contains(&s));
        seen.push(s);
    }
}

#[test]
fn pixel_coordinates_count_rows_from_bottom() {
    assert_eq!(pixel_coordinates(0, 4, 3), (0, 3));
    assert_eq!(pixel_coordinates(5, 4, 3), (1, 2));
    assert_eq!(pixel_coordinates(11, 4, 3), (3, 1));
}
