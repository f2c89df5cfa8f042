use calibrate::canvas::{
    canvas_extent, guide_lines, CanvasModel, Key, CANVAS_HEIGHT, CANVAS_WIDTH, REAL_PER_UNIT,
};
use calibrate::layout::layout_config;
use calibrate::registry::{parse_monitors, DisplayRecord};

fn record(name: &str, w: i32, h: i32, x: i32, y: i32, rot: u32) -> DisplayRecord {
    DisplayRecord {
        name: name.to_string(),
        native_width: w,
        native_height: h,
        pos_x: x,
        pos_y: y,
        rotation: rot,
    }
}

fn two_displays() -> CanvasModel {
    CanvasModel::from_records(&vec![
        record("DP-1", 1920, 1080, 0, 0, 0),
        record("DP-2", 1920, 1080, 1920, 0, 0),
    ])
}

/// The canvas position of a display: its real position at one tenth.
fn canvas_of(m: &CanvasModel, name: &str) -> (f64, f64) {
    let (x, y) = m.position(name).expect("display on the canvas");
    (x as f64 / REAL_PER_UNIT as f64, y as f64 / REAL_PER_UNIT as f64)
}

#[test]
fn records_land_scaled_on_canvas() {
    let m = two_displays();
    assert_eq!(m.len(), 2);
    assert_eq!(m.position("DP-1"), Some((0, 0)));
    assert_eq!(m.position("DP-2"), Some((1920, 0)));
    assert_eq!(canvas_of(&m, "DP-1"), (0.0, 0.0));
    assert_eq!(canvas_of(&m, "DP-2"), (192.0, 0.0));
    assert_eq!(m.position("DP-3"), None);
}

#[test]
fn released_drag_snaps_to_grid() {
    let mut m = two_displays();
    let s = m.begin_drag("DP-2", 200, 10).expect("DP-2 is on the canvas");
    m.drag_update(&s, 203, 12);
    assert_eq!(canvas_of(&m, "DP-2"), (195.0, 2.0));
    m.end_drag(s, 203, 12);
    let (x, y) = canvas_of(&m, "DP-2");
    assert_eq!((x, y), (195.0, 0.0));
    assert_eq!(x % 5.0, 0.0);
    assert_eq!(y % 5.0, 0.0);
}

#[test]
fn drag_rounds_to_nearest_grid_point() {
    let mut m = two_displays();
    let s = m.begin_drag("DP-1", 0, 0).unwrap();
    m.end_drag(s, 13, 17);
    assert_eq!(canvas_of(&m, "DP-1"), (15.0, 15.0));
    let s = m.begin_drag("DP-1", 15, 15).unwrap();
    m.end_drag(s, 17, 12);
    assert_eq!(canvas_of(&m, "DP-1"), (15.0, 10.0));
}

#[test]
fn drag_past_edge_stays_inside_canvas() {
    let mut m = two_displays();
    let s = m.begin_drag("DP-2", 192, 0).unwrap();
    m.drag_update(&s, 100_000, -500);
    assert_eq!(m.position("DP-2"), Some(((CANVAS_WIDTH * 10 - 1920) as i32, 0)));
    m.end_drag(s, 100_000, 100_000);
    let (x, y) = m.position("DP-2").unwrap();
    assert!(x >= 0 && y >= 0);
    assert!(x as i64 + 1920 <= CANVAS_WIDTH * 10 && y as i64 + 1080 <= CANVAS_HEIGHT * 10);
    assert_eq!((x, y), (38080, 28900));
}

#[test]
fn drag_of_unknown_display_does_not_start() {
    let m = two_displays();
    assert!(m.begin_drag("HDMI-A-1", 0, 0).is_none());
}

#[test]
fn key_steps_add_up() {
    let mut a = two_displays();
    let mut b = two_displays();
    let mut c = two_displays();
    for _ in 0..25 {
        assert!(a.key_press("DP-1", Key::Right, false));
    }
    assert!(b.move_by("DP-1", 25, 0));
    assert!(c.key_press("DP-1", Key::Right, true));
    assert_eq!(canvas_of(&a, "DP-1"), (25.0, 0.0));
    assert_eq!(a.position("DP-1"), b.position("DP-1"));
    assert_eq!(canvas_of(&c, "DP-1"), (20.0, 0.0));
    assert_ne!(a.position("DP-1"), c.position("DP-1"));
}

#[test]
fn keys_stop_at_canvas_edge() {
    let mut m = two_displays();
    assert!(m.key_press("DP-1", Key::Up, false));
    assert!(m.key_press("DP-1", Key::Left, true));
    assert_eq!(m.position("DP-1"), Some((0, 0)));
    assert!(m.key_press("DP-1", Key::Down, true));
    assert_eq!(m.position("DP-1"), Some((0, 200)));
    assert!(!m.key_press("DP-1", Key::Other, false));
    assert_eq!(m.position("DP-1"), Some((0, 200)));
}

#[test]
fn key_moves_start_from_unrounded_position() {
    let mut m = CanvasModel::from_records(&vec![record("DP-2", 1920, 1080, 1925, 3, 0)]);
    assert!(m.key_press("DP-2", Key::Right, false));
    assert_eq!(m.position("DP-2"), Some((1935, 3)));
}

#[test]
fn four_rotations_return_to_start() {
    let mut m = CanvasModel::from_records(&vec![record("DP-1", 1920, 1080, 0, 0, 2)]);
    assert_eq!(m.rotation("DP-1"), Some(2));
    assert!(m.rotate_next("DP-1"));
    assert_eq!(m.rotation("DP-1"), Some(3));
    assert!(m.key_press("DP-1", Key::Rotate, false));
    assert_eq!(m.rotation("DP-1"), Some(0));
    m.rotate_next("DP-1");
    m.rotate_next("DP-1");
    assert_eq!(m.rotation("DP-1"), Some(2));
    assert!(!m.rotate_next("DP-9"));
}

#[test]
fn snapshot_is_in_real_coordinates() {
    let mut m = two_displays();
    m.place("DP-1", 19, 7);
    m.rotate_next("DP-2");
    let snap = m.snapshot();
    assert_eq!(snap.len(), 2);
    assert_eq!(snap[0].name, "DP-1");
    assert_eq!((snap[0].pos_x, snap[0].pos_y, snap[0].rotation), (190, 70, 0));
    assert_eq!(snap[1].name, "DP-2");
    assert_eq!((snap[1].pos_x, snap[1].pos_y, snap[1].rotation), (1920, 0, 1));
    assert_eq!((snap[1].native_width, snap[1].native_height), (1920, 1080));
}

#[test]
fn place_clamps_both_axes() {
    let mut m = two_displays();
    assert!(m.place("DP-1", -40, 5000));
    assert_eq!(m.position("DP-1"), Some((0, 30000 - 1080)));
    assert!(!m.place("nope", 1, 1));
}

#[test]
fn same_name_replaces_earlier_display() {
    let mut m = CanvasModel::new();
    m.insert(&record("DP-1", 1920, 1080, 0, 0, 0));
    m.insert(&record("DP-2", 1280, 1024, 1920, 0, 0));
    m.insert(&record("DP-1", 1920, 1080, 3840, 1080, 1));
    assert_eq!(m.len(), 2);
    assert_eq!(m.position("DP-1"), Some((3840, 1080)));
    assert_eq!(m.rotation("DP-1"), Some(1));
}

#[test]
fn loaded_positions_are_kept_until_moved() {
    let mut m = CanvasModel::from_records(&vec![
        record("L", 1920, 1080, -1920, 0, 0),
        record("R", 1920, 1080, 100_000, 0, 7),
        record("M", 1920, 1080, 1925, 0, 0),
    ]);
    assert_eq!(m.position("L"), Some((-1920, 0)));
    assert_eq!(m.position("R"), Some((100_000, 0)));
    assert_eq!(m.rotation("R"), Some(0));
    assert_eq!(
        layout_config(&m.snapshot()),
        "monitor = L, 1920x1080, -1920x0, 1, transform, 0\nmonitor = R, 1920x1080, 100000x0, 1, transform, 0\nmonitor = M, 1920x1080, 1925x0, 1, transform, 0\n"
    );
    assert!(m.key_press("L", Key::Up, false));
    assert_eq!(m.position("L"), Some((0, 0)));
}

#[test]
fn listing_to_canvas_to_config() {
    let text = "Monitor DP-1 (ID 0):\n\t1920x1080@60 at 0x0\n\ttransform: 0\nMonitor DP-2 (ID 1):\n\t1920x1080@60 at 1925x0\n\ttransform: 0\n";
    let m = CanvasModel::from_records(&parse_monitors(text));
    assert_eq!(m.position("DP-2"), Some((1925, 0)));
    assert_eq!(canvas_of(&m, "DP-2"), (192.5, 0.0));
    let snap = m.snapshot();
    assert_eq!(snap[1].pos_x, 1925);
}

#[test]
fn guides_every_five_units() {
    let v = guide_lines(CANVAS_WIDTH as i32);
    assert_eq!(v.len(), 801);
    assert_eq!(v[0], 0);
    assert_eq!(v[1], 5);
    assert_eq!(v[800], 4000);
    let h = guide_lines(CANVAS_HEIGHT as i32);
    assert_eq!(h.len(), 601);
    assert_eq!(guide_lines(4).len(), 1);
    assert_eq!(guide_lines(-1).len(), 0);
}

#[test]
fn rectangle_size_is_a_tenth() {
    assert_eq!(canvas_extent(1920), 192);
    assert_eq!(canvas_extent(1925), 192);
    assert_eq!(canvas_extent(0), 0);
    assert_eq!(canvas_extent(-5), 0);
}
