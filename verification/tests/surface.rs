use rustky::surface::{pool_bytes, FrameGeometry, SurfaceState};

#[test]
fn fresh_surface_draws_nothing() {
    let s = SurfaceState::new();
    assert_eq!(s, SurfaceState { width: 0, height: 0, configured: false });
    assert_eq!(s.frame(), None);
}

#[test]
fn configure_takes_the_proposed_size() {
    let mut s = SurfaceState::new();
    let grow = s.configure(300, 200, 400, 250, 0);
    assert_eq!(s, SurfaceState { width: 300, height: 200, configured: true });
    assert_eq!(grow, Some(300 * 200 * 4));
    assert_eq!(s.frame(), Some(FrameGeometry { width: 300, height: 200, stride: 1200 }));
}

#[test]
fn zero_proposal_falls_back_to_the_window() {
    let mut s = SurfaceState::new();
    let grow = s.configure(0, 0, 400, 250, 400 * 250 * 4);
    assert_eq!(s, SurfaceState { width: 400, height: 250, configured: true });
    assert_eq!(grow, None);
    let mut s = SurfaceState::new();
    s.configure(0, 90, 400, 250, 1 << 30);
    assert_eq!((s.width, s.height), (400, 90));
}

#[test]
fn pool_grows_only_when_too_small() {
    let mut s = SurfaceState::new();
    assert_eq!(s.configure(10, 10, 1, 1, 399), Some(400));
    assert_eq!(s.configure(10, 10, 1, 1, 400), None);
    assert_eq!(s.configure(10, 10, 1, 1, 5000), None);
}

#[test]
fn empty_side_draws_nothing() {
    let mut s = SurfaceState::new();
    s.configure(0, 10, 0, 10, 0);
    assert!(s.configured);
    assert_eq!(s.frame(), None);
}

#[test]
fn pool_size_of_a_window() {
    assert_eq!(pool_bytes(400, 300), 480_000);
    assert_eq!(pool_bytes(0, 300), 0);
}

#[test]
fn configure_fits_checks_the_count() {
    assert!(SurfaceState::configure_fits(300, 200, 0, 0));
    assert!(SurfaceState::configure_fits(0, 0, 32768, 32767));
    assert!(!SurfaceState::configure_fits(65536, 16384, 0, 0));
    assert!(SurfaceState::configure_fits(65535, 16383, 0, 0));
    assert!(!SurfaceState::configure_fits(0, 0, u32::MAX, u32::MAX));
}

#[test]
fn configured_frame_fits_the_pool() {
    let mut s = SurfaceState::new();
    let pool_len = 100usize;
    let grow = s.configure(64, 48, 1, 1, pool_len);
    let g = s.frame().unwrap();
    let pool_after = grow.unwrap_or(pool_len);
    assert!(pool_after >= (g.stride as usize) * (g.height as usize));
}
