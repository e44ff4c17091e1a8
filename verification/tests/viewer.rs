use airhorizon::ieee::{Double, Single};
use airhorizon::ui::{
    clamp_fov, clamp_zoom, drag_effect, hit_mode_button, surface_size, DragEffect, Finger, Gesture,
    Key, Layer, Mode, Pinch, Pointer, Request, Spot, Viewer,
};

fn d(v: f64) -> Double {
    Double { bits: v.to_bits() }
}

fn s(v: f32) -> Single {
    Single { bits: v.to_bits() }
}

fn at(x: f64, y: f64) -> Spot {
    Spot { x: d(x), y: d(y) }
}

#[test]
fn modes_cycle_and_the_button_names_the_next() {
    assert_eq!(Mode::MapView.next(), Mode::Panorama);
    assert_eq!(Mode::Panorama.next(), Mode::Compass);
    assert_eq!(Mode::Compass.next(), Mode::MapView);
    assert_eq!(Mode::MapView.next().next().next(), Mode::MapView);
    assert_eq!(Mode::MapView.button_label(), "PANORAMA");
    assert_eq!(Mode::Panorama.button_label(), "COMPASS");
    assert_eq!(Mode::Compass.button_label(), "MAP");
}

#[test]
fn a_horizon_view_is_entered_through_a_cast() {
    let mut v = Viewer::new();
    assert_eq!(v.cycle_mode(), Request::Cast(Mode::Panorama));
    assert_eq!(v.mode, Mode::MapView);
    // A failed cast stays on the map.
    v.settle(Mode::Panorama, false);
    assert_eq!(v.mode, Mode::MapView);
    v.settle(Mode::Panorama, true);
    assert_eq!(v.mode, Mode::Panorama);
    // From one horizon view to the other no new cast is needed.
    assert_eq!(v.cycle_mode(), Request::Redraw);
    assert_eq!(v.mode, Mode::Compass);
    assert_eq!(v.cycle_mode(), Request::Redraw);
    assert_eq!(v.mode, Mode::MapView);
    // Entering from the map casts again, horizon or not.
    assert!(v.has_pano);
    assert_eq!(v.set_mode(Mode::Compass), Request::Cast(Mode::Compass));
}

#[test]
fn escape_goes_back_to_the_map_and_then_quits() {
    let mut v = Viewer::new();
    v.settle(Mode::Compass, true);
    assert_eq!(v.press(Key::Escape), Request::Redraw);
    assert_eq!(v.mode, Mode::MapView);
    assert_eq!(v.press(Key::Escape), Request::Exit);
    assert_eq!(v.mode, Mode::MapView);
}

#[test]
fn view_keys_toggle_against_the_map() {
    let mut v = Viewer::new();
    assert_eq!(v.press(Key::V), Request::Cast(Mode::Panorama));
    v.settle(Mode::Panorama, true);
    assert_eq!(v.press(Key::C), Request::Redraw);
    assert_eq!(v.mode, Mode::Compass);
    assert_eq!(v.press(Key::C), Request::Redraw);
    assert_eq!(v.mode, Mode::MapView);
    v.settle(Mode::Panorama, true);
    assert_eq!(v.press(Key::V), Request::Redraw);
    assert_eq!(v.mode, Mode::MapView);
}

#[test]
fn layers_start_as_they_should() {
    let s = Viewer::new().shown;
    assert!(!s.roads && !s.paths && !s.labels && !s.artist);
    assert!(s.peaks && s.peak_names && s.edges && s.water);
}

#[test]
fn layer_keys_switch_their_layer_and_back() {
    let keys = [
        (Key::E, Layer::Edges, false),
        (Key::A, Layer::Artist, true),
        (Key::W, Layer::Water, false),
        (Key::R, Layer::Roads, true),
        (Key::L, Layer::Labels, true),
        (Key::K, Layer::Peaks, false),
        (Key::N, Layer::PeakNames, false),
    ];
    for (key, layer, first) in keys {
        let mut v = Viewer::new();
        let before = v;
        let rebuild = key == Key::R;
        assert_eq!(v.press(key), Request::Switched { layer, on: first, rebuild, load: false });
        assert_ne!(v.shown, before.shown);
        assert_eq!(v.press(key), Request::Switched { layer, on: !first, rebuild, load: false });
        assert_eq!(v, before);
    }
}

#[test]
fn only_escape_on_the_map_quits() {
    for key in [Key::V, Key::C, Key::E, Key::A, Key::W, Key::R, Key::P, Key::L, Key::K, Key::N] {
        let mut v = Viewer::new();
        assert_ne!(v.press(key), Request::Exit);
        assert_eq!(v.mode, Mode::MapView);
        v.settle(Mode::Panorama, true);
        assert_ne!(v.press(key), Request::Exit);
        assert!(v.has_pano);
    }
    for mode in [Mode::Panorama, Mode::Compass] {
        let mut v = Viewer::new();
        v.settle(mode, true);
        let before = v;
        assert_eq!(v.press(Key::Escape), Request::Redraw);
        assert_eq!(v, Viewer { mode: Mode::MapView, ..before });
    }
}

#[test]
fn paths_load_on_the_first_press() {
    let mut v = Viewer::new();
    let layer = Layer::Paths;
    assert_eq!(v.press(Key::P), Request::Switched { layer, on: true, rebuild: false, load: true });
    assert!(v.shown.paths && v.paths_loaded);
    assert_eq!(v.press(Key::P), Request::Switched { layer, on: false, rebuild: false, load: false });
    assert_eq!(v.press(Key::P), Request::Switched { layer, on: true, rebuild: false, load: false });
}

#[test]
fn the_legend_lists_the_map_layers() {
    let mut v = Viewer::new();
    v.press(Key::R);
    assert_eq!(
        v.legend(),
        vec![
            ("R  roads", true),
            ("P  paths", false),
            ("L  labels", false),
            ("K  peaks", true),
            ("N  peak names", true),
        ]
    );
}

#[test]
fn the_mouse_drags_while_its_button_is_down() {
    let mut p = Pointer::new();
    // Without a cursor a click cannot hit the button.
    assert_eq!(p.mouse_button(true, true), Gesture::Nothing);
    assert!(p.dragging);
    assert_eq!(p.cursor_moved(at(1.0, 2.0)), Gesture::Nothing);
    assert_eq!(p.cursor_moved(at(4.0, 6.0)), Gesture::Drag { from: at(1.0, 2.0), to: at(4.0, 6.0) });
    assert_eq!(p.mouse_button(false, false), Gesture::Nothing);
    assert_eq!(p.cursor_moved(at(5.0, 6.0)), Gesture::Nothing);
    assert_eq!(p.cursor, Some(at(5.0, 6.0)));
    assert_eq!(p.mouse_button(true, true), Gesture::Toggle);
    assert!(!p.dragging);
}

#[test]
fn a_finger_stops_the_mouse() {
    let mut p = Pointer::new();
    p.cursor_moved(at(0.0, 0.0));
    p.mouse_button(true, false);
    assert!(p.dragging);
    assert_eq!(p.touch_started(7, at(9.0, 9.0), false), Gesture::Nothing);
    assert!(!p.dragging);
    p.mouse_button(true, false);
    assert!(!p.dragging);
    assert_eq!(p.cursor_moved(at(3.0, 3.0)), Gesture::Nothing);
}

#[test]
fn one_finger_drags_two_pinch_more_do_nothing() {
    let mut p = Pointer::new();
    assert_eq!(p.touch_started(1, at(0.0, 0.0), true), Gesture::Toggle);
    assert!(p.fingers.is_empty());
    assert_eq!(p.touch_started(1, at(0.0, 0.0), false), Gesture::Nothing);
    assert_eq!(p.touch_moved(1, at(2.0, 0.0)), Gesture::Drag { from: at(0.0, 0.0), to: at(2.0, 0.0) });
    // The button counts only for the first finger.
    assert_eq!(
        p.touch_started(2, at(6.0, 0.0), true),
        Gesture::Measure { a: at(2.0, 0.0), b: at(6.0, 0.0) }
    );
    assert_eq!(p.pinch, None);
    let pinch = Pinch { mid: at(4.0, 0.0), dist: d(4.0) };
    p.set_pinch(pinch);
    assert_eq!(
        p.touch_moved(2, at(8.0, 0.0)),
        Gesture::Pinched { a: at(2.0, 0.0), b: at(8.0, 0.0), since: Some(pinch) }
    );
    assert_eq!(p.touch_started(3, at(1.0, 1.0), false), Gesture::Nothing);
    assert_eq!(p.pinch, None);
    assert_eq!(p.touch_moved(3, at(2.0, 2.0)), Gesture::Nothing);
    assert_eq!(p.touch_ended(1), Gesture::Measure { a: at(8.0, 0.0), b: at(2.0, 2.0) });
    assert_eq!(p.touch_ended(3), Gesture::Nothing);
    assert_eq!(p.touch_ended(99), Gesture::Nothing);
    assert_eq!(p.fingers, vec![Finger { id: 2, at: at(8.0, 0.0) }]);
}

#[test]
fn a_move_of_an_unknown_finger_counts_it_from_there() {
    let mut p = Pointer::new();
    assert_eq!(p.touch_moved(4, at(1.0, 1.0)), Gesture::Nothing);
    assert_eq!(p.touch_moved(4, at(2.0, 1.0)), Gesture::Drag { from: at(1.0, 1.0), to: at(2.0, 1.0) });
    assert_eq!(
        p.touch_moved(5, at(3.0, 1.0)),
        Gesture::Pinched { a: at(2.0, 1.0), b: at(3.0, 1.0), since: None }
    );
}

#[test]
fn the_mode_button_includes_its_edges() {
    let hit = |x: f32, y: f32| hit_mode_button(s(x), s(y), s(10.0), s(758.0), s(90.0), s(790.0));
    assert!(hit(10.0, 758.0) && hit(90.0, 790.0) && hit(50.0, 770.0));
    assert!(!hit(9.5, 770.0) && !hit(90.5, 770.0) && !hit(50.0, 757.0) && !hit(50.0, 791.0));
    assert!(!hit(f32::NAN, 770.0));
}

#[test]
fn drags_act_by_mode() {
    assert_eq!(drag_effect(Mode::MapView), DragEffect::Pan);
    assert_eq!(drag_effect(Mode::Panorama), DragEffect::Scrub);
    assert_eq!(drag_effect(Mode::Compass), DragEffect::Nothing);
}

#[test]
fn scales_and_angles_stay_within_limits() {
    assert_eq!(clamp_fov(d(5.0)), d(20.0));
    assert_eq!(clamp_fov(d(90.0)), d(90.0));
    assert_eq!(clamp_fov(d(300.0)), d(160.0));
    assert_eq!(clamp_zoom(d(0.0)), d(1.0e-4));
    assert_eq!(clamp_zoom(d(0.05)), d(0.05));
    assert_eq!(clamp_zoom(d(9.0)), d(5.0));
    assert_eq!(clamp_zoom(d(f64::NEG_INFINITY)), d(1.0e-4));
    assert_eq!(clamp_fov(d(f64::INFINITY)), d(160.0));
    assert_eq!((clamp_fov(d(20.0)), clamp_fov(d(160.0))), (d(20.0), d(160.0)));
}

#[test]
fn surfaces_without_area_are_not_made() {
    assert_eq!(surface_size(0, 600), None);
    assert_eq!(surface_size(800, 0), None);
    assert_eq!(surface_size(800, 600), Some((800, 600)));
}
