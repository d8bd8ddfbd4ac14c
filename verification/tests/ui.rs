use prelude_player::engine::{transport_icon_name, State};
use prelude_player::ui::{format_time, select_port_index, slider_step, PositionSync, SliderStep};

#[test]
fn clock_text_pads_seconds() {
    assert_eq!(format_time(0), "0:00");
    assert_eq!(format_time(5), "0:05");
    assert_eq!(format_time(65), "1:05");
    assert_eq!(format_time(600), "10:00");
    assert_eq!(format_time(3599), "59:59");
    assert_eq!(format_time(3600), "60:00");
}

#[test]
fn port_selection_prefers_the_current_port() {
    let ports = vec!["Synth A".to_string(), "Synth B".to_string(), "Synth B".to_string()];
    assert_eq!(select_port_index(&ports, Some("Synth B")), Some(1));
    assert_eq!(select_port_index(&ports, Some("Gone")), Some(0));
    assert_eq!(select_port_index(&ports, None), Some(0));
    assert_eq!(select_port_index(&vec![], Some("Synth B")), None);
}

#[test]
fn transport_icon_follows_state() {
    assert_eq!(transport_icon_name(State::Playing), "media-playback-pause-symbolic");
    assert_eq!(transport_icon_name(State::Paused), "media-playback-start-symbolic");
    assert_eq!(transport_icon_name(State::Stopped), "media-playback-start-symbolic");
}

#[test]
fn slider_drag_seeks_once_on_release() {
    // Held down: the density view follows the slider, no seek yet.
    assert_eq!(
        slider_step(false, true, false, true),
        SliderStep { held: true, seek: false, sync: PositionSync::DensityFollowsSlider }
    );
    assert_eq!(slider_step(true, true, false, true).seek, false);
    // Released: one seek, then both follow the engine while playing.
    assert_eq!(
        slider_step(true, false, false, true),
        SliderStep { held: false, seek: true, sync: PositionSync::FollowEngine }
    );
    assert_eq!(slider_step(false, false, false, true).seek, false);
    // Not playing: nothing moves; dragging the density view moves the slider.
    assert_eq!(slider_step(false, false, false, false).sync, PositionSync::Hold);
    assert_eq!(slider_step(false, false, true, true).sync, PositionSync::SliderFollowsDensity);
    assert_eq!(slider_step(false, true, true, true).sync, PositionSync::Hold);
}
