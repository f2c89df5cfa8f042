use calibrate::text::{chars_of, find, parse_below, parse_i32, push_int, split_all, trimmed};

fn v(s: &str) -> Vec<char> {
    s.chars().collect()
}

#[test]
fn parse_i32_reads_like_std() {
    for s in ["0", "42", "+7", "-13", "007", "2147483647", "-2147483648"] {
        assert_eq!(parse_i32(&v(s)), s.parse::<i32>().ok(), "{}", s);
    }
    for s in ["", "-", "+", "2147483648", "-2147483649", " 1", "1 ", "1x", "--1", "99999999999999999999"] {
        assert_eq!(parse_i32(&v(s)), None, "{}", s);
    }
}

#[test]
fn parse_below_refuses_sign_and_large() {
    assert_eq!(parse_below(&v("3"), 4), Some(3));
    assert_eq!(parse_below(&v("+2"), 4), Some(2));
    assert_eq!(parse_below(&v("4"), 4), None);
    assert_eq!(parse_below(&v("-0"), 4), None);
}

#[test]
fn push_int_writes_decimal() {
    let mut s = String::from("n=");
    push_int(&mut s, -2147483648);
    assert_eq!(s, "n=-2147483648");
    let mut t = String::new();
    push_int(&mut t, 0);
    push_int(&mut t, 1050);
    assert_eq!(t, "01050");
}

#[test]
fn trimmed_drops_unicode_space() {
    assert_eq!(trimmed(&v("\t a b \u{a0}\n")), v("a b"));
    assert_eq!(trimmed(&v("   ")), v(""));
}

#[test]
fn split_and_find_follow_std() {
    let s = v("a, b, , c");
    let parts = split_all(&s, &v(", "));
    let expect: Vec<Vec<char>> = "a, b, , c".split(", ").map(v).collect();
    assert_eq!(parts, expect);
    assert_eq!(find(&v("xx at yy"), &v(" at ")), Some(2));
    assert_eq!(find(&v("xx"), &v(" at ")), None);
    assert_eq!(chars_of("π°x"), vec!['π', '°', 'x']);
}
