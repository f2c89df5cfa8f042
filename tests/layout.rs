use calibrate::layout::{config_line, layout_config, parse_config_line, rotation_label};
use calibrate::registry::DisplayRecord;

fn record(name: &str, w: i32, h: i32, x: i32, y: i32, rot: u32) -> DisplayRecord {
    DisplayRecord {
        name: name.to_string(),
        native_width: w,
        native_height: h,
        pos_x: x,
        pos_y: y,
        rotation: rot,
    }
}

#[test]
fn config_line_has_compositor_form() {
    let line = config_line(&record("DP-2", 1920, 1080, 1920, 0, 1));
    assert_eq!(line, "monitor = DP-2, 1920x1080, 1920x0, 1, transform, 1\n");
}

#[test]
fn config_line_writes_negative_positions() {
    let line = config_line(&record("HDMI-A-1", 1280, 1024, -1280, -5, 0));
    assert_eq!(line, "monitor = HDMI-A-1, 1280x1024, -1280x-5, 1, transform, 0\n");
}

#[test]
fn layout_config_is_one_line_per_display() {
    let ds = vec![record("DP-1", 1920, 1080, 0, 0, 0), record("DP-2", 1920, 1080, 1920, 0, 3)];
    assert_eq!(
        layout_config(&ds),
        "monitor = DP-1, 1920x1080, 0x0, 1, transform, 0\nmonitor = DP-2, 1920x1080, 1920x0, 1, transform, 3\n"
    );
    assert_eq!(layout_config(&Vec::new()), "");
}

#[test]
fn written_line_reads_back() {
    let d = record("DP-1", 2560, 1440, -2560, 120, 2);
    let back = parse_config_line(&config_line(&d)).expect("a configuration line");
    assert_eq!(back.name, "DP-1");
    assert_eq!(back.native_width, 2560);
    assert_eq!(back.native_height, 1440);
    assert_eq!(back.pos_x, -2560);
    assert_eq!(back.pos_y, 120);
    assert_eq!(back.rotation, 2);
}

#[test]
fn line_without_transform_reads_rotation_zero() {
    let d = parse_config_line("monitor = eDP-1, 1920x1080, 0x0, 1").expect("older form");
    assert_eq!(d.name, "eDP-1");
    assert_eq!(d.native_width, 1920);
    assert_eq!(d.rotation, 0);
}

#[test]
fn malformed_lines_are_refused() {
    assert!(parse_config_line("").is_none());
    assert!(parse_config_line("monitor = DP-1, 1920x1080, 0x0").is_none());
    assert!(parse_config_line("monitor = DP-1, 1920x1080, 0x0, 1, transform, 4").is_none());
    assert!(parse_config_line("monitor = DP-1, 1920-1080, 0x0, 1").is_none());
    assert!(parse_config_line("monitors = DP-1, 1920x1080, 0x0, 1").is_none());
    assert!(parse_config_line("monitor = DP-1, 1920x1080, 0x0, 2, transform, 1").is_none());
}

#[test]
fn label_shows_rotation_in_degrees() {
    assert_eq!(rotation_label("DP-1", 0), "DP-1\nRotation:0°");
    assert_eq!(rotation_label("DP-1", 1), "DP-1\nRotation:90°");
    assert_eq!(rotation_label("DP-1", 2), "DP-1\nRotation:180°");
    assert_eq!(rotation_label("DP-1", 3), "DP-1\nRotation:270°");
}
