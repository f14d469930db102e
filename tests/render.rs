use lv::render::{render_step, RenderStep, RenderTargets};

#[test]
fn worker_checks_in_order() {
    assert_eq!(render_step(true, true, true), RenderStep::Exit);
    assert_eq!(render_step(false, true, true), RenderStep::Resize);
    assert_eq!(render_step(false, false, true), RenderStep::Draw);
    assert_eq!(render_step(false, false, false), RenderStep::Idle);
}

#[test]
fn double_buffer_publishes_back_and_swaps() {
    let mut t = RenderTargets::new(7, 9);
    assert!(!t.has_frame);
    assert_eq!(t.display_tex, 0);
    t.frame_finished();
    assert_eq!(t.display_tex, 9);
    assert_eq!((t.front, t.back), (9, 7));
    t.frame_finished();
    assert_eq!(t.display_tex, 7);
    t.clear_frame();
    assert!(!t.has_frame);
    assert_eq!(t.display_tex, 0);
}
