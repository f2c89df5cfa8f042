//! Reading the compositor's monitor listing into one record per display.
use vstd::prelude::*;

use crate::text::{
    char_is_space, chars_of, find, i32_or_zero, is_space, lemma_find_from, occurs_at,
    occurs_at_exec, parse_below, parse_i32, slice, split_on, trim, trimmed, unsigned_value,
};

verus! {

/// One physical output as the compositor reports it, in real coordinates.
pub struct DisplayRecord {
    pub name: String,
    pub native_width: i32,
    pub native_height: i32,
    pub pos_x: i32,
    pub pos_y: i32,
    /// Rotation index: 0, 1, 2 or 3 for 0°, 90°, 180° and 270°.
    pub rotation: u32,
}

/// What a `DisplayRecord` holds, as mathematical values.
pub struct RecordView {
    pub name: Seq<char>,
    pub width: int,
    pub height: int,
    pub x: int,
    pub y: int,
    pub rotation: int,
}

impl View for DisplayRecord {
    type V = RecordView;

    open spec fn view(&self) -> RecordView {
        RecordView {
            name: self.name@,
            width: self.native_width as int,
            height: self.native_height as int,
            x: self.pos_x as int,
            y: self.pos_y as int,
            rotation: self.rotation as int,
        }
    }
}

/// The numbers read so far from the lines of one block.
pub struct Reading {
    pub width: int,
    pub height: int,
    pub x: int,
    pub y: int,
    pub rotation: int,
}

/// The header that opens each display's block.
pub open spec fn block_marker() -> Seq<char> {
    seq!['M', 'o', 'n', 'i', 't', 'o', 'r', ' ']
}

/// Separates the resolution from the position on a mode line.
pub open spec fn at_marker() -> Seq<char> {
    seq![' ', 'a', 't', ' ']
}

/// Opens the line that gives a display's rotation.
pub open spec fn transform_marker() -> Seq<char> {
    seq!['t', 'r', 'a', 'n', 's', 'f', 'o', 'r', 'm', ':']
}

pub open spec fn newline() -> Seq<char> {
    seq!['\n']
}

pub open spec fn x_marker() -> Seq<char> {
    seq!['x']
}

pub open spec fn at_sign() -> Seq<char> {
    seq!['@']
}

/// The text of each display's block: what follows each header, up to the next.
pub open spec fn blocks(s: Seq<char>) -> Seq<Seq<char>> {
    split_on(s, block_marker()).drop_first()
}

/// The characters of `s` up to its first white space.
pub open spec fn leading_word(s: Seq<char>) -> Seq<char>
    decreases s.len(),
{
    if s.len() > 0 && !is_space(s[0]) {
        seq![s[0]] + leading_word(s.drop_first())
    } else {
        Seq::empty()
    }
}

/// The first white-space-delimited word of `s`.
pub open spec fn first_word(s: Seq<char>) -> Seq<char> {
    leading_word(crate::text::trim_start(s))
}

/// `s` with every leading repetition of `p` taken off.
pub open spec fn strip_all(s: Seq<char>, p: Seq<char>) -> Seq<char>
    decreases s.len(),
{
    if p.len() > 0 && occurs_at(s, p, 0) {
        strip_all(s.subrange(p.len() as int, s.len() as int), p)
    } else {
        s
    }
}

/// A rotation index read from text; anything but 0 to 3 reads as 0.
pub open spec fn rotation_field(s: Seq<char>) -> int {
    match unsigned_value(s) {
        Some(v) => if v < 4 {
            v
        } else {
            0
        },
        None => 0,
    }
}

/// The two numbers of `AxB`, or `old` where `s` is not two parts around one `x`.
pub open spec fn number_pair(s: Seq<char>, old: (int, int)) -> (int, int) {
    let p = split_on(s, x_marker());
    if p.len() == 2 {
        (i32_or_zero(p[0]), i32_or_zero(p[1]))
    } else {
        old
    }
}

/// What a trimmed line `t` of the form `<res>@<refresh> at <x>x<y>` sets.
pub open spec fn read_mode(r: Reading, t: Seq<char>) -> Reading {
    let parts = split_on(t, at_marker());
    if parts.len() == 2 {
        let res = trim(split_on(parts[0], at_sign())[0]);
        let pos = trim(parts[1]);
        let size = number_pair(res, (r.width, r.height));
        let place = number_pair(pos, (r.x, r.y));
        Reading { width: size.0, height: size.1, x: place.0, y: place.1, rotation: r.rotation }
    } else {
        r
    }
}

/// What one line sets, read after those before it.
pub open spec fn read_line(r: Reading, line: Seq<char>) -> Reading {
    let t = trim(line);
    let m = read_mode(r, t);
    if occurs_at(t, transform_marker(), 0) {
        Reading { rotation: rotation_field(trim(strip_all(t, transform_marker()))), ..m }
    } else {
        m
    }
}

pub open spec fn zero_reading() -> Reading {
    Reading { width: 0, height: 0, x: 0, y: 0, rotation: 0 }
}

/// What the lines set, read in order; a later line overrides an earlier one.
pub open spec fn read_lines(lines: Seq<Seq<char>>) -> Reading
    decreases lines.len(),
{
    if lines.len() == 0 {
        zero_reading()
    } else {
        read_line(read_lines(lines.drop_last()), lines.last())
    }
}

/// The record that one block describes.
pub open spec fn block_record(b: Seq<char>) -> RecordView {
    let lines = split_on(b, newline());
    let r = read_lines(lines);
    RecordView {
        name: first_word(lines[0]),
        width: r.width,
        height: r.height,
        x: r.x,
        y: r.y,
        rotation: r.rotation,
    }
}

} // verus!

verus! {

/// The numbers read so far from a block, as machine values.
#[derive(Clone, Copy)]
struct Fields {
    width: i32,
    height: i32,
    x: i32,
    y: i32,
    rotation: u32,
}

impl View for Fields {
    type V = Reading;

    closed spec fn view(&self) -> Reading {
        Reading {
            width: self.width as int,
            height: self.height as int,
            x: self.x as int,
            y: self.y as int,
            rotation: self.rotation as int,
        }
    }
}

/// Where the first word of `line` starts and ends.
fn word_bounds(line: &Vec<char>) -> (r: (usize, usize))
    ensures
        r.0 <= r.1 <= line.len(),
        line@.subrange(r.0 as int, r.1 as int) == first_word(line@),
{
    let n = line.len();
    let mut lo: usize = 0;
    assert(line@.subrange(0, n as int) =~= line@);
    while lo < n && char_is_space(line[lo])
        invariant
            lo <= n == line.len(),
            crate::text::trim_start(line@) == crate::text::trim_start(
                line@.subrange(lo as int, n as int),
            ),
        decreases n - lo,
    {
        assert(line@.subrange(lo as int, n as int).drop_first() =~= line@.subrange(
            lo + 1,
            n as int,
        ));
        lo += 1;
    }
    let ghost t = line@.subrange(lo as int, n as int);
    assert(crate::text::trim_start(line@) == t);
    let mut hi: usize = lo;
    assert(line@.subrange(lo as int, lo as int) =~= Seq::<char>::empty());
    while hi < n && !char_is_space(line[hi])
        invariant
            lo <= hi <= n == line.len(),
            t == line@.subrange(lo as int, n as int),
            leading_word(t) == line@.subrange(lo as int, hi as int) + leading_word(
                line@.subrange(hi as int, n as int),
            ),
        decreases n - hi,
    {
        let ghost u = line@.subrange(hi as int, n as int);
        assert(u.drop_first() =~= line@.subrange(hi + 1, n as int));
        assert(leading_word(u) == seq![u[0]] + leading_word(u.drop_first()));
        assert(line@.subrange(lo as int, hi + 1) =~= line@.subrange(lo as int, hi as int).push(
            u[0],
        ));
        assert(line@.subrange(lo as int, hi as int) + leading_word(u) =~= line@.subrange(
            lo as int,
            hi + 1,
        ) + leading_word(u.drop_first()));
        hi += 1;
    }
    assert(leading_word(line@.subrange(hi as int, n as int)) =~= Seq::<char>::empty());
    assert(line@.subrange(lo as int, hi as int) + Seq::<char>::empty() =~= line@.subrange(
        lo as int,
        hi as int,
    ));
    (lo, hi)
}

/// The `i32` that `s` writes, or 0.
fn i32_field(s: &Vec<char>) -> (r: i32)
    ensures
        r as int == i32_or_zero(s@),
{
    match parse_i32(s) {
        Some(v) => v,
        None => 0,
    }
}

/// The two numbers of `AxB`, or `old` where `s` is not of that shape.
fn read_pair(s: &Vec<char>, old: (i32, i32)) -> (r: (i32, i32))
    ensures
        (r.0 as int, r.1 as int) == number_pair(s@, (old.0 as int, old.1 as int)),
{
    let x = vec!['x'];
    assert(x@ =~= x_marker());
    match crate::text::split_pair(s, &x) {
        Some((a, b)) => (i32_field(&a), i32_field(&b)),
        None => old,
    }
}

/// A rotation index read from `s`.
fn read_rotation(s: &Vec<char>) -> (r: u32)
    ensures
        r as int == rotation_field(s@),
{
    match parse_below(s, 4) {
        Some(v) => v,
        None => 0,
    }
}

/// `s` with every leading repetition of `p` taken off.
fn strip_all_exec(s: &Vec<char>, p: &Vec<char>) -> (r: Vec<char>)
    requires
        p.len() > 0,
    ensures
        r@ == strip_all(s@, p@),
{
    let mut cur = slice(s, 0, s.len());
    assert(cur@ =~= s@);
    while cur.len() >= p.len() && occurs_at_exec(&cur, p, 0)
        invariant
            p.len() > 0,
            strip_all(s@, p@) == strip_all(cur@, p@),
        decreases cur.len(),
    {
        cur = slice(&cur, p.len(), cur.len());
    }
    cur
}

/// The fields after reading one more line.
fn read_line_exec(r: Fields, line: &Vec<char>) -> (o: Fields)
    ensures
        o@ == read_line(r@, line@),
{
    let t = trimmed(line);
    let at = vec![' ', 'a', 't', ' '];
    assert(at@ =~= at_marker());
    let mut m = r;
    match crate::text::split_pair(&t, &at) {
        Some((a, b)) => {
            let sign = vec!['@'];
            assert(sign@ =~= at_sign());
            let res = trimmed(&crate::text::before_first(&a, &sign));
            let pos = trimmed(&b);
            let size = read_pair(&res, (r.width, r.height));
            let place = read_pair(&pos, (r.x, r.y));
            m = Fields { width: size.0, height: size.1, x: place.0, y: place.1, rotation: r.rotation };
        },
        None => {},
    }
    assert(m@ == read_mode(r@, trim(line@)));
    let tm = vec!['t', 'r', 'a', 'n', 's', 'f', 'o', 'r', 'm', ':'];
    assert(tm@ =~= transform_marker());
    if t.len() >= tm.len() && occurs_at_exec(&t, &tm, 0) {
        let v = trimmed(&strip_all_exec(&t, &tm));
        m.rotation = read_rotation(&v);
    }
    m
}

} // verus!

verus! {

/// The record of the block `s[lo..hi]`, whose characters are also those of `text`.
fn parse_block(text: &str, s: &Vec<char>, lo: usize, hi: usize) -> (r: DisplayRecord)
    requires
        s@ == text@,
        lo <= hi <= s.len(),
    ensures
        r@ == block_record(s@.subrange(lo as int, hi as int)),
{
    let b = slice(s, lo, hi);
    let nl = vec!['\n'];
    assert(nl@ =~= newline());
    let first = crate::text::before_first(&b, &nl);
    proof {
        lemma_find_from(b@, nl@, 0);
    }
    assert(first@ =~= b@.subrange(0, first@.len() as int));
    let (a, c) = word_bounds(&first);
    let name = String::from_str(text.substring_char(lo + a, lo + c));
    assert(name@ =~= first@.subrange(a as int, c as int));
    let mut acc = Fields { width: 0, height: 0, x: 0, y: 0, rotation: 0 };
    let mut pos: usize = 0;
    let ghost done: Seq<Seq<char>> = Seq::empty();
    assert(b@.subrange(0, b@.len() as int) =~= b@);
    assert(done + split_on(b@, nl@) =~= split_on(b@, nl@));
    loop
        invariant_except_break
            pos <= b.len(),
            nl@ == newline(),
            nl.len() == 1,
            split_on(b@, nl@) == done + split_on(b@.subrange(pos as int, b@.len() as int), nl@),
            acc@ == read_lines(done),
        ensures
            split_on(b@, nl@) == done,
            acc@ == read_lines(done),
        decreases b.len() - pos,
    {
        let rest = slice(&b, pos, b.len());
        proof {
            lemma_find_from(rest@, nl@, 0);
        }
        match find(&rest, &nl) {
            Some(j) => {
                assert(occurs_at(rest@, nl@, j as int));
                assert(j + 1 <= rest.len());
                let line = slice(&rest, 0, j);
                let ghost old_done = done;
                acc = read_line_exec(acc, &line);
                proof {
                    done = done.push(line@);
                    assert(done.drop_last() =~= old_done);
                    assert(rest@.subrange(j + 1, rest@.len() as int) =~= b@.subrange(
                        pos + j + 1,
                        b@.len() as int,
                    ));
                    assert(old_done + (seq![line@] + split_on(
                        b@.subrange(pos + j + 1, b@.len() as int),
                        nl@,
                    )) =~= done + split_on(b@.subrange(pos + j + 1, b@.len() as int), nl@));
                }
                pos = pos + j + 1;
            },
            None => {
                let ghost old_done = done;
                acc = read_line_exec(acc, &rest);
                proof {
                    done = done.push(rest@);
                    assert(done.drop_last() =~= old_done);
                    assert(old_done + seq![rest@] =~= done);
                }
                break ;
            },
        }
    }
    DisplayRecord {
        name,
        native_width: acc.width,
        native_height: acc.height,
        pos_x: acc.x,
        pos_y: acc.y,
        rotation: acc.rotation,
    }
}

/// One record per display block of a monitor listing, in the listing's order.
/// A field that does not read as a number is 0, and a malformed block does not
/// affect the others.
pub fn parse_monitors(text: &str) -> (r: Vec<DisplayRecord>)
    ensures
        r.len() == blocks(text@).len(),
        forall|i: int| 0 <= i < r.len() ==> (#[trigger] r[i])@ == block_record(blocks(text@)[i]),
{
    let s = chars_of(text);
    let marker = vec!['M', 'o', 'n', 'i', 't', 'o', 'r', ' '];
    assert(marker@ =~= block_marker());
    let mut out: Vec<DisplayRecord> = Vec::new();
    proof {
        lemma_find_from(s@, marker@, 0);
    }
    let mut pos: usize = match find(&s, &marker) {
        Some(j) => {
            assert(occurs_at(s@, marker@, j as int));
            assert(j + marker.len() <= s.len());
            j + 8
        },
        None => {
            assert(blocks(text@) =~= Seq::<Seq<char>>::empty());
            return out;
        },
    };
    let ghost done: Seq<Seq<char>> = Seq::empty();
    assert(blocks(text@) =~= done + split_on(s@.subrange(pos as int, s@.len() as int), marker@));
    loop
        invariant_except_break
            pos <= s.len(),
            s@ == text@,
            marker@ == block_marker(),
            marker.len() == 8,
            blocks(text@) == done + split_on(s@.subrange(pos as int, s@.len() as int), marker@),
            out.len() == done.len(),
            forall|i: int| 0 <= i < out.len() ==> (#[trigger] out[i])@ == block_record(done[i]),
        ensures
            blocks(text@) == done,
            out.len() == done.len(),
            forall|i: int| 0 <= i < out.len() ==> (#[trigger] out[i])@ == block_record(done[i]),
        decreases s.len() - pos,
    {
        let rest = slice(&s, pos, s.len());
        proof {
            lemma_find_from(rest@, marker@, 0);
        }
        match find(&rest, &marker) {
            Some(j) => {
                assert(occurs_at(rest@, marker@, j as int));
                assert(j + 8 <= rest.len());
                let rec = parse_block(text, &s, pos, pos + j);
                assert(s@.subrange(pos as int, pos + j) =~= rest@.subrange(0, j as int));
                let ghost old_done = done;
                out.push(rec);
                proof {
                    done = done.push(rest@.subrange(0, j as int));
                    assert(rest@.subrange(j + 8, rest@.len() as int) =~= s@.subrange(
                        pos + j + 8,
                        s@.len() as int,
                    ));
                    assert(old_done + (seq![rest@.subrange(0, j as int)] + split_on(
                        s@.subrange(pos + j + 8, s@.len() as int),
                        marker@,
                    )) =~= done + split_on(s@.subrange(pos + j + 8, s@.len() as int), marker@));
                    assert forall|i: int| 0 <= i < out.len() implies (#[trigger] out[i])@
                        == block_record(done[i]) by {
                        if i < old_done.len() {
                            assert(done[i] == old_done[i]);
                        }
                    }
                }
                pos = pos + j + 8;
            },
            None => {
                let rec = parse_block(text, &s, pos, s.len());
                let ghost old_done = done;
                out.push(rec);
                proof {
                    done = done.push(rest@);
                    assert(old_done + seq![rest@] =~= done);
                    assert forall|i: int| 0 <= i < out.len() implies (#[trigger] out[i])@
                        == block_record(done[i]) by {
                        if i < old_done.len() {
                            assert(done[i] == old_done[i]);
                        }
                    }
                }
                break ;
            },
        }
    }
    out
}

} // verus!

verus! {

/// Lines without a mode leave size and position at 0; lines without a rotation
/// as well leave the rotation at 0.
proof fn lemma_lines_read_zero(lines: Seq<Seq<char>>, no_transform: bool)
    requires
        forall|i: int|
            0 <= i < lines.len() ==> crate::text::absent(#[trigger] lines[i], at_marker()),
        no_transform ==> forall|i: int|
            0 <= i < lines.len() ==> crate::text::absent(#[trigger] lines[i], transform_marker()),
    ensures
        read_lines(lines).width == 0,
        read_lines(lines).height == 0,
        read_lines(lines).x == 0,
        read_lines(lines).y == 0,
        no_transform ==> read_lines(lines).rotation == 0,
    decreases lines.len(),
{
    if lines.len() > 0 {
        lemma_lines_read_zero(lines.drop_last(), no_transform);
        let l = lines.last();
        assert(crate::text::absent(l, at_marker()));
        crate::text::lemma_absent_trim(l, at_marker());
        crate::text::lemma_split_whole(trim(l), at_marker());
        if no_transform {
            assert(crate::text::absent(l, transform_marker()));
            crate::text::lemma_absent_trim(l, transform_marker());
            assert(!occurs_at(trim(l), transform_marker(), 0));
        }
    }
}

/// A block that holds no ` at ` (so no mode line) reads as a display of size 0
/// at (0, 0). Its rotation still comes from its `transform:` line, and is 0
/// where it has none.
pub proof fn lemma_block_without_mode(b: Seq<char>)
    requires
        crate::text::absent(b, at_marker()),
    ensures
        block_record(b).width == 0,
        block_record(b).height == 0,
        block_record(b).x == 0,
        block_record(b).y == 0,
        crate::text::absent(b, transform_marker()) ==> block_record(b).rotation == 0,
{
    crate::text::lemma_absent_pieces(b, newline(), at_marker());
    let no_transform = crate::text::absent(b, transform_marker());
    if no_transform {
        crate::text::lemma_absent_pieces(b, newline(), transform_marker());
    }
    lemma_lines_read_zero(split_on(b, newline()), no_transform);
}

} // verus!

verus! {

/// No header starts inside a text and runs on into a header after it: the
/// header shares no proper beginning with its own end.
proof fn lemma_marker_clear(a: Seq<char>)
    ensures
        crate::text::ends_clear_of(a, block_marker()),
{
    let m = block_marker();
    let am = a + m;
    assert forall|j: int| 0 <= j < a.len() && occurs_at(am, m, j) implies j + m.len() <= a.len() by {
        if j + m.len() > a.len() {
            let t = a.len() - j;
            assert(am[a.len() as int] == 'M');
            assert(am.subrange(j, j + m.len())[t] == am[a.len() as int]);
            assert(m[t] != 'M');
        }
    }
}

/// Adding a block to a listing leaves the others as they were. The listing with
/// block `b` after the text `pre` has `b` at position `k`, and apart from it
/// the blocks of the listing without `b`. Since each record is read from its
/// own block alone (`parse_monitors`), the records of the other blocks are
/// those of the listing without `b`; this holds where `b` is malformed too.
pub proof fn lemma_block_added(pre: Seq<char>, b: Seq<char>, r: Seq<char>)
    requires
        crate::text::absent(b, block_marker()),
    ensures
        ({
            let m = block_marker();
            let k = split_on(pre, m).len() - 1;
            &&& blocks(pre + m + b + m + r) == blocks(pre + m + r).insert(k, b)
            &&& blocks(pre + m + b + m + r).map_values(|x: Seq<char>| block_record(x))
                == blocks(pre + m + r).map_values(|x: Seq<char>| block_record(x)).insert(
                k,
                block_record(b),
            )
        }),
{
    let m = block_marker();
    let k = split_on(pre, m).len() - 1;
    lemma_marker_clear(pre);
    lemma_marker_clear(b);
    crate::text::lemma_split_on_len(pre, m);
    assert(pre + m + b + m + r =~= pre + m + (b + m + r));
    crate::text::lemma_split_join(pre, m, b + m + r);
    crate::text::lemma_split_join(b, m, r);
    crate::text::lemma_split_whole(b, m);
    crate::text::lemma_split_join(pre, m, r);
    let s1 = blocks(pre + m + b + m + r);
    let s2 = blocks(pre + m + r);
    assert(s1 =~= s2.insert(k, b));
    assert(s1.map_values(|x: Seq<char>| block_record(x)) =~= s2.map_values(
        |x: Seq<char>| block_record(x),
    ).insert(k, block_record(b)));
}

} // verus!
