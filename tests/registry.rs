use calibrate::registry::{parse_monitors, DisplayRecord};

const TWO_MONITORS: &str = "Monitor DP-1 (ID 0):\n\t1920x1080@60.00000 at 0x0\n\tdescription: Left screen\n\tscale: 1.00\n\ttransform: 0\n\tfocused: yes\n\nMonitor DP-2 (ID 1):\n\t2560x1440@143.99600 at 1920x0\n\tdescription: Right screen\n\ttransform: 1\n\n";

fn check(r: &DisplayRecord, name: &str, w: i32, h: i32, x: i32, y: i32, rot: u32) {
    assert_eq!(r.name, name);
    assert_eq!(r.native_width, w);
    assert_eq!(r.native_height, h);
    assert_eq!(r.pos_x, x);
    assert_eq!(r.pos_y, y);
    assert_eq!(r.rotation, rot);
}

#[test]
fn reads_each_display_block() {
    let r = parse_monitors(TWO_MONITORS);
    assert_eq!(r.len(), 2);
    check(&r[0], "DP-1", 1920, 1080, 0, 0, 0);
    check(&r[1], "DP-2", 2560, 1440, 1920, 0, 1);
}

#[test]
fn empty_listing_has_no_displays() {
    assert_eq!(parse_monitors("").len(), 0);
    assert_eq!(parse_monitors("no monitors here\n").len(), 0);
}

#[test]
fn block_without_at_reads_as_zero() {
    let text = "Monitor HDMI-A-1 (ID 0):\n\t1920x1080@60.00000 0x0\n\tdescription: broken\nMonitor DP-3 (ID 1):\n\t1280x1024@75.02500 at -1280x56\n\ttransform: 3\n";
    let r = parse_monitors(text);
    assert_eq!(r.len(), 2);
    check(&r[0], "HDMI-A-1", 0, 0, 0, 0, 0);
    check(&r[1], "DP-3", 1280, 1024, -1280, 56, 3);
}

#[test]
fn unreadable_numbers_read_as_zero() {
    let text = "Monitor eDP-1 (ID 0):\n\twidexhigh@60 at 10xabc\n\ttransform: x\n";
    let r = parse_monitors(text);
    assert_eq!(r.len(), 1);
    check(&r[0], "eDP-1", 0, 0, 10, 0, 0);
}

#[test]
fn rotation_out_of_range_reads_as_zero() {
    let text = "Monitor eDP-1 (ID 0):\n\t1920x1200@60 at 0x0\n\ttransform: 5\n";
    let r = parse_monitors(text);
    check(&r[0], "eDP-1", 1920, 1200, 0, 0, 0);
}

#[test]
fn number_too_large_for_i32_reads_as_zero() {
    let text = "Monitor X (ID 0):\n\t99999999999x1080@60 at 2147483647x-2147483648\n";
    let r = parse_monitors(text);
    check(&r[0], "X", 0, 1080, 2147483647, -2147483648, 0);
}

#[test]
fn later_mode_line_overrides_earlier() {
    let text = "Monitor A (ID 0):\n\t800x600@60 at 5x6\n\t1024x768@60 at 7x8\n";
    let r = parse_monitors(text);
    check(&r[0], "A", 1024, 768, 7, 8, 0);
}

#[test]
fn block_without_mode_keeps_its_rotation() {
    let text = "Monitor DP-4 (ID 0):\n\tdisabled\n\ttransform: 2\n";
    let r = parse_monitors(text);
    check(&r[0], "DP-4", 0, 0, 0, 0, 2);
}

#[test]
fn malformed_block_leaves_others_as_without_it() {
    let good = "Monitor DP-1 (ID 0):\n\t1920x1080@60 at 0x0\nMonitor DP-2 (ID 1):\n\t2560x1440@144 at 1920x0\n\ttransform: 1\n";
    let with_bad = "Monitor DP-1 (ID 0):\n\t1920x1080@60 at 0x0\nMonitor BAD (ID 9):\n\tgarbage here\nMonitor DP-2 (ID 1):\n\t2560x1440@144 at 1920x0\n\ttransform: 1\n";
    let a = parse_monitors(good);
    let b = parse_monitors(with_bad);
    assert_eq!(b.len(), a.len() + 1);
    check(&b[1], "BAD", 0, 0, 0, 0, 0);
    for (x, y) in [(&a[0], &b[0]), (&a[1], &b[2])] {
        check(y, &x.name, x.native_width, x.native_height, x.pos_x, x.pos_y, x.rotation);
    }
    check(&b[2], "DP-2", 2560, 1440, 1920, 0, 1);
}
