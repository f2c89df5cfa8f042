//! The compositor's `monitor = ...` configuration lines: writing them from a
//! snapshot of the canvas, and reading them back.
use vstd::prelude::*;

use crate::registry::{DisplayRecord, RecordView};
use crate::text::{int_text, occurs_at, push_int, signed_value, split_on, unsigned_value};

verus! {

pub open spec fn line_prefix() -> Seq<char> {
    seq!['m', 'o', 'n', 'i', 't', 'o', 'r', ' ', '=', ' ']
}

/// Separates the fields of a configuration line.
pub open spec fn field_sep() -> Seq<char> {
    seq![',', ' ']
}

pub open spec fn scale_field() -> Seq<char> {
    seq!['1']
}

pub open spec fn transform_field() -> Seq<char> {
    seq!['t', 'r', 'a', 'n', 's', 'f', 'o', 'r', 'm']
}

pub open spec fn times_sign() -> Seq<char> {
    seq!['x']
}

/// `a` and `b` joined as `AxB`.
pub open spec fn pair_text(a: int, b: int) -> Seq<char> {
    int_text(a) + times_sign() + int_text(b)
}

/// The configuration line of one display:
/// `monitor = <name>, <w>x<h>, <x>x<y>, 1, transform, <rotation>` and a newline.
pub open spec fn config_text(d: RecordView) -> Seq<char> {
    line_prefix() + d.name + field_sep() + pair_text(d.width, d.height) + field_sep() + pair_text(
        d.x,
        d.y,
    ) + field_sep() + scale_field() + field_sep() + transform_field() + field_sep() + int_text(
        d.rotation,
    ) + seq!['\n']
}

/// The configuration lines of all displays, in order.
pub open spec fn layout_text(ds: Seq<RecordView>) -> Seq<char>
    decreases ds.len(),
{
    if ds.len() == 0 {
        Seq::empty()
    } else {
        layout_text(ds.drop_last()) + config_text(ds.last())
    }
}

/// The line that writes one display into the compositor's configuration.
pub fn config_line(d: &DisplayRecord) -> (r: String)
    ensures
        r@ == config_text(d@),
{
    let mut out = String::new();
    proof {
        reveal_strlit("monitor = ");
        reveal_strlit(", ");
        reveal_strlit("x");
        reveal_strlit(", 1, transform, ");
        reveal_strlit("\n");
    }
    out.append("monitor = ");
    out.append(d.name.as_str());
    out.append(", ");
    push_int(&mut out, d.native_width as i64);
    out.append("x");
    push_int(&mut out, d.native_height as i64);
    out.append(", ");
    push_int(&mut out, d.pos_x as i64);
    out.append("x");
    push_int(&mut out, d.pos_y as i64);
    out.append(", 1, transform, ");
    push_int(&mut out, d.rotation as i64);
    out.append("\n");
    assert(out@ =~= config_text(d@));
    out
}

/// The configuration text of a whole layout: one line per display, in order.
pub fn layout_config(ds: &Vec<DisplayRecord>) -> (r: String)
    ensures
        r@ == layout_text(ds@.map_values(|d: DisplayRecord| d@)),
{
    let ghost views = ds@.map_values(|d: DisplayRecord| d@);
    let mut out = String::new();
    let mut i: usize = 0;
    while i < ds.len()
        invariant
            i <= ds.len(),
            views == ds@.map_values(|d: DisplayRecord| d@),
            out@ == layout_text(views.subrange(0, i as int)),
        decreases ds.len() - i,
    {
        let line = config_line(&ds[i]);
        out.append(line.as_str());
        assert(views.subrange(0, i + 1).drop_last() =~= views.subrange(0, i as int));
        i += 1;
    }
    assert(views.subrange(0, i as int) =~= views);
    out
}

/// How a rotation index reads on a display's label.
pub open spec fn degrees_text(r: int) -> Seq<char> {
    if r == 1 {
        seq!['9', '0', '°']
    } else if r == 2 {
        seq!['1', '8', '0', '°']
    } else if r == 3 {
        seq!['2', '7', '0', '°']
    } else {
        seq!['0', '°']
    }
}

/// The label of a display: its name, then its rotation in degrees.
pub open spec fn label_text(name: Seq<char>, r: int) -> Seq<char> {
    name + seq!['\n', 'R', 'o', 't', 'a', 't', 'i', 'o', 'n', ':'] + degrees_text(r)
}

/// The text shown on a display's rectangle: `<name>\nRotation:<degrees>°`.
pub fn rotation_label(name: &str, rotation: u32) -> (r: String)
    ensures
        r@ == label_text(name@, rotation as int),
{
    let mut out = String::from_str(name);
    proof {
        reveal_strlit("\nRotation:");
        reveal_strlit("90°");
        reveal_strlit("180°");
        reveal_strlit("270°");
        reveal_strlit("0°");
    }
    out.append("\nRotation:");
    let deg = match rotation {
        1 => "90°",
        2 => "180°",
        3 => "270°",
        _ => "0°",
    };
    out.append(deg);
    assert(out@ =~= label_text(name@, rotation as int));
    out
}

} // verus!

verus! {

/// The value of `s` where it writes an integer that fits an `i32`.
pub open spec fn i32_value(s: Seq<char>) -> Option<int> {
    match signed_value(s) {
        Some(v) => if i32::MIN <= v <= i32::MAX {
            Some(v)
        } else {
            None
        },
        None => None,
    }
}

/// The two numbers of a field `AxB`.
pub open spec fn pair_value(s: Seq<char>) -> Option<(int, int)> {
    let p = split_on(s, times_sign());
    if p.len() == 2 && i32_value(p[0]) is Some && i32_value(p[1]) is Some {
        Some((i32_value(p[0])->0, i32_value(p[1])->0))
    } else {
        None
    }
}

/// A line without its final newline.
pub open spec fn line_body(s: Seq<char>) -> Seq<char> {
    if s.len() > 0 && s.last() == '\n' {
        s.drop_last()
    } else {
        s
    }
}

/// The rotation that the fields after the position give: `1, transform, <r>`
/// gives `r` (0 to 3), and a lone `1`, the older form, gives 0.
pub open spec fn rotation_value(parts: Seq<Seq<char>>) -> Option<int> {
    if parts.len() == 6 && parts[3] == scale_field() && parts[4] == transform_field() {
        match unsigned_value(parts[5]) {
            Some(v) => if v < 4 {
                Some(v)
            } else {
                None
            },
            None => None,
        }
    } else if parts.len() == 4 && parts[3] == scale_field() {
        Some(0)
    } else {
        None
    }
}

/// The display that a configuration line describes, if it is one.
pub open spec fn read_config(s: Seq<char>) -> Option<RecordView> {
    let body = line_body(s);
    if !occurs_at(body, line_prefix(), 0) {
        None
    } else {
        let parts = split_on(body.subrange(10, body.len() as int), field_sep());
        match (rotation_value(parts), pair_value(parts[1]), pair_value(parts[2])) {
            (Some(r), Some(size), Some(place)) => Some(
                RecordView {
                    name: parts[0],
                    width: size.0,
                    height: size.1,
                    x: place.0,
                    y: place.1,
                    rotation: r,
                },
            ),
            _ => None,
        }
    }
}

/// The two numbers of a field `AxB`.
fn read_pair(s: &Vec<char>) -> (r: Option<(i32, i32)>)
    ensures
        match r {
            Some(p) => pair_value(s@) == Some((p.0 as int, p.1 as int)),
            None => pair_value(s@) is None,
        },
{
    let x = vec!['x'];
    assert(x@ =~= times_sign());
    match crate::text::split_pair(s, &x) {
        Some((a, b)) => match (crate::text::parse_i32(&a), crate::text::parse_i32(&b)) {
            (Some(u), Some(v)) => Some((u, v)),
            _ => None,
        },
        None => None,
    }
}

/// Reads a configuration line (with or without its newline) back into the
/// display it describes. `None` where the line is not of that form.
pub fn parse_config_line(line: &str) -> (r: Option<DisplayRecord>)
    ensures
        match r {
            Some(d) => read_config(line@) == Some(d@),
            None => read_config(line@) is None,
        },
{
    let s = crate::text::chars_of(line);
    let n = s.len();
    let body = if n > 0 && s[n - 1] == '\n' {
        crate::text::slice(&s, 0, n - 1)
    } else {
        crate::text::slice(&s, 0, n)
    };
    assert(body@ == line_body(line@)) by {
        if n > 0 && s@.last() == '\n' {
            assert(s@.drop_last() =~= s@.subrange(0, n - 1));
        } else {
            assert(s@ =~= s@.subrange(0, n as int));
        }
    }
    let prefix = vec!['m', 'o', 'n', 'i', 't', 'o', 'r', ' ', '=', ' '];
    assert(prefix@ =~= line_prefix());
    if body.len() < 10 || !crate::text::occurs_at_exec(&body, &prefix, 0) {
        return None;
    }
    let rest = crate::text::slice(&body, 10, body.len());
    let sep = vec![',', ' '];
    assert(sep@ =~= field_sep());
    let parts = crate::text::split_all(&rest, &sep);
    let ghost ps = split_on(rest@, sep@);
    let one = vec!['1'];
    assert(one@ =~= scale_field());
    let word = vec!['t', 'r', 'a', 'n', 's', 'f', 'o', 'r', 'm'];
    assert(word@ =~= transform_field());
    let rotation: u32 = if parts.len() == 6 && crate::text::same_chars(&parts[3], &one)
        && crate::text::same_chars(&parts[4], &word) {
        match crate::text::parse_below(&parts[5], 4) {
            Some(v) => v,
            None => {
                return None;
            },
        }
    } else if parts.len() == 4 && crate::text::same_chars(&parts[3], &one) {
        0
    } else {
        return None;
    };
    assert(rotation_value(ps) == Some(rotation as int));
    let size = match read_pair(&parts[1]) {
        Some(p) => p,
        None => {
            return None;
        },
    };
    let place = match read_pair(&parts[2]) {
        Some(p) => p,
        None => {
            return None;
        },
    };
    let k = parts[0].len();
    proof {
        crate::text::lemma_split_first(rest@, sep@);
    }
    let name = String::from_str(line.substring_char(10, 10 + k));
    assert(name@ =~= ps[0]);
    Some(
        DisplayRecord {
            name,
            native_width: size.0,
            native_height: size.1,
            pos_x: place.0,
            pos_y: place.1,
            rotation,
        },
    )
}

} // verus!

verus! {

/// `a` holds no `", "`, the separator of configuration fields.
pub open spec fn free_of_separator(a: Seq<char>) -> bool {
    forall|j: int| 0 <= j && j + 1 < a.len() ==> !(a[j] == ',' && #[trigger] a[j + 1] == ' ')
}

/// The separator first stands after a field that holds none.
proof fn lemma_field_then(a: Seq<char>, b: Seq<char>)
    requires
        free_of_separator(a),
    ensures
        split_on(a + field_sep() + b, field_sep()) == seq![a] + split_on(b, field_sep()),
{
    let p = field_sep();
    let s = a + p + b;
    assert forall|j: int| 0 <= j < a.len() implies !occurs_at(s, p, j) by {
        if occurs_at(s, p, j) {
            assert(s.subrange(j, j + 2)[0] == ',' && s.subrange(j, j + 2)[1] == ' ');
            if j + 1 < a.len() {
                assert(a[j] == ',' && a[j + 1] == ' ');
            } else {
                assert(s[j + 1] == ',');
            }
        }
    }
    crate::text::lemma_split_cons(a, p, b);
}

/// A number's text holds no `", "` and no `x`.
proof fn lemma_number_chars(n: int)
    ensures
        forall|j: int| 0 <= j < int_text(n).len() ==> #[trigger] int_text(n)[j] != ',',
        free_of_separator(int_text(n)),
        forall|j: int| 0 <= j < int_text(n).len() ==> #[trigger] int_text(n)[j] != 'x',
{
    crate::text::lemma_int_text_chars(n);
}

/// What `pair_text` writes reads back as the same two numbers.
proof fn lemma_pair_round_trip(a: int, b: int)
    requires
        i32::MIN <= a <= i32::MAX,
        i32::MIN <= b <= i32::MAX,
    ensures
        pair_value(pair_text(a, b)) == Some((a, b)),
        free_of_separator(pair_text(a, b)),
{
    lemma_number_chars(a);
    lemma_number_chars(b);
    let s = pair_text(a, b);
    let p = times_sign();
    assert forall|j: int| 0 <= j < int_text(a).len() implies !occurs_at(s, p, j) by {
        if occurs_at(s, p, j) {
            assert(s.subrange(j, j + 1)[0] == 'x');
            assert(int_text(a)[j] == 'x');
        }
    }
    crate::text::lemma_split_cons(int_text(a), p, int_text(b));
    assert forall|j: int| 0 <= j implies !occurs_at(int_text(b), p, j) by {
        if occurs_at(int_text(b), p, j) {
            assert(int_text(b).subrange(j, j + 1)[0] == 'x');
        }
    }
    crate::text::lemma_split_whole(int_text(b), p);
    crate::text::lemma_int_text(a);
    crate::text::lemma_int_text(b);
    assert forall|j: int| 0 <= j < s.len() implies #[trigger] s[j] != ',' by {
        if j < int_text(a).len() {
            assert(s[j] == int_text(a)[j]);
        } else if j > int_text(a).len() {
            assert(s[j] == int_text(b)[j - int_text(a).len() - 1]);
        }
    }
}

/// Writing a display's configuration line and reading it back gives the same
/// name, size, position and rotation, for every display whose name holds no
/// `", "` (the field separator) and whose rotation index is 0 to 3.
pub proof fn lemma_config_round_trip(d: DisplayRecord)
    requires
        free_of_separator(d@.name),
        d.rotation < 4,
    ensures
        read_config(config_text(d@)) == Some(d@),
{
    let v = d@;
    let sep = field_sep();
    let t5 = int_text(v.rotation);
    let t4 = transform_field() + sep + t5;
    let t3 = scale_field() + sep + t4;
    let t2 = pair_text(v.x, v.y) + sep + t3;
    let t1 = pair_text(v.width, v.height) + sep + t2;
    let rest = v.name + sep + t1;
    let s = config_text(v);
    assert(line_body(s) =~= line_prefix() + rest);
    let body = line_body(s);
    assert(body.subrange(0, 10) =~= line_prefix());
    assert(body.subrange(10, body.len() as int) =~= rest);
    lemma_pair_round_trip(v.width, v.height);
    lemma_pair_round_trip(v.x, v.y);
    lemma_number_chars(v.rotation);
    lemma_field_then(v.name, t1);
    lemma_field_then(pair_text(v.width, v.height), t2);
    lemma_field_then(pair_text(v.x, v.y), t3);
    lemma_field_then(scale_field(), t4);
    assert(free_of_separator(transform_field())) by {
        assert forall|j: int| 0 <= j && j + 1 < transform_field().len() implies !(
        transform_field()[j] == ',' && #[trigger] transform_field()[j + 1] == ' ') by {
            assert(transform_field()[j + 1] != ' ');
        }
    }
    lemma_field_then(transform_field(), t5);
    assert forall|j: int| 0 <= j implies !occurs_at(t5, sep, j) by {
        if occurs_at(t5, sep, j) {
            assert(t5.subrange(j, j + 2)[0] == ',');
        }
    }
    crate::text::lemma_split_whole(t5, sep);
    let parts = split_on(rest, sep);
    assert(parts =~= seq![
        v.name,
        pair_text(v.width, v.height),
        pair_text(v.x, v.y),
        scale_field(),
        transform_field(),
        t5,
    ]);
    crate::text::lemma_int_text(v.rotation);
    lemma_decimal_no_sign(v.rotation);
    assert(rotation_value(parts) == Some(v.rotation));
}

/// A number that is not negative is written without a minus sign.
proof fn lemma_decimal_no_sign(n: int)
    requires
        n >= 0,
    ensures
        int_text(n).len() > 0,
        int_text(n)[0] != '-',
{
    crate::text::lemma_decimal(n as nat);
    assert(crate::text::is_digit(int_text(n)[0]));
}

} // verus!
