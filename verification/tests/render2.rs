use hermes_tui::render2::{make_stream_renderer, render_diff, render_message, StreamingRenderer};

#[test]
fn no_backend_renders_nothing() {
    assert_eq!(render_message("# title", 80), None);
    assert_eq!(render_diff("-a\n+b", 120), None);
    assert_eq!(make_stream_renderer(80), None);
}

#[test]
fn streaming_renderer_keeps_width() {
    assert_eq!(StreamingRenderer::new(132).cols, 132);
}
