use pathtracer::camera::LensShape;
use pathtracer::renderer::{DebugRenderMode, DebugRenderer, PathTracingRenderer, ProgressAction};
use pathtracer::tonemap::ToneMappingMode;

#[test]
fn continues_inside_budget() {
    let mut r = PathTracingRenderer::new(10, 123_000, 15_000, 1_000);
    assert_eq!(r.max_sampling(), 10);
    assert_eq!(r.report_progress(1, 2_000), ProgressAction::Continue);
    assert_eq!(r.last_report_progress_ms, 2_000);
    assert_eq!(r.report_image_counter, 0);
}

#[test]
fn snapshot_after_interval() {
    let mut r = PathTracingRenderer::new(100, 123_000, 15_000, 0);
    assert_eq!(r.report_progress(1, 14_999), ProgressAction::Continue);
    assert_eq!(r.report_progress(2, 15_000), ProgressAction::Snapshot(0));
    assert_eq!(r.report_image_counter, 1);
    assert_eq!(r.last_report_image_ms, 15_000);
    assert_eq!(r.report_progress(3, 20_000), ProgressAction::Continue);
    assert_eq!(r.report_progress(4, 30_000), ProgressAction::Snapshot(1));
    assert_eq!(r.report_image_counter, 2);
}

#[test]
fn stops_before_overrunning_time() {
    // used 100 s, last pass 20 s: 100 + 22 = 122 <= 123 goes on
    let mut r = PathTracingRenderer::new(1000, 123_000, 1_000_000, 0);
    r.last_report_progress_ms = 80_000;
    assert_eq!(r.report_progress(5, 100_000), ProgressAction::Continue);
    // used 110 s, last pass 10 s: 110 + 11 = 121 <= 123 goes on
    assert_eq!(r.report_progress(6, 110_000), ProgressAction::Continue);
    // used 118 s, last pass 8 s: 118 + 8.8 > 123 stops
    let before = r;
    assert_eq!(r.report_progress(7, 118_000), ProgressAction::TimeLimit(0));
    assert_eq!(r, before);
}

#[test]
fn time_limit_exactly_reached_goes_on() {
    // 100 + 1.1 * 20 == 122 == limit: not over
    let mut r = PathTracingRenderer::new(1000, 122_000, 1_000_000, 0);
    r.last_report_progress_ms = 80_000;
    assert_eq!(r.report_progress(5, 100_000), ProgressAction::Continue);
}

#[test]
fn stops_at_max_sampling() {
    let mut r = PathTracingRenderer::new(3, 123_000, 15_000, 0);
    assert_eq!(r.report_progress(1, 10), ProgressAction::Continue);
    assert_eq!(r.report_progress(2, 20), ProgressAction::Continue);
    assert_eq!(r.report_progress(3, 30), ProgressAction::MaxSampling(0));
}

#[test]
fn time_limit_wins_over_max_sampling() {
    let mut r = PathTracingRenderer::new(1, 1_000, 15_000, 0);
    assert_eq!(r.report_progress(1, 5_000), ProgressAction::TimeLimit(0));
}

#[test]
fn clock_going_back_counts_as_no_time() {
    let mut r = PathTracingRenderer::new(10, 1_000, 500, 5_000);
    assert_eq!(r.report_progress(1, 4_000), ProgressAction::Continue);
}

#[test]
fn debug_renderer_takes_one_pass() {
    let mut d = DebugRenderer { mode: DebugRenderMode::Normal };
    assert_eq!(d.max_sampling(), 1);
    assert_eq!(d.report_progress(1), ProgressAction::Done);
    assert_eq!(d.mode, DebugRenderMode::Normal);
    assert_ne!(LensShape::Square, LensShape::Circle);
    assert_ne!(ToneMappingMode::Identity, ToneMappingMode::Reinhard);
}
